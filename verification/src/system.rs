//! System facts: host name, operating system, uptime, GPU clock, fan speed
//! and disk and network counters.
use vstd::prelude::*;
use crate::text::{
    chars_of, decimal, equals_str, find_char, has_prefix, lemma_range_at, line_ranges, lines,
    opt_string_view, opt_view, parse_range, parse_u32, parse_u64, push_decimal, run_before,
    string_of_range, trim, trim_char, trim_char_range, trim_range, trimmed, word_ranges, words,
};

verus! {

use vstd::arithmetic::div_mod::lemma_fundamental_div_mod_converse;

/// The trimmed text, where there is one and it is not blank.
pub open spec fn nonblank(o: Option<Seq<char>>) -> Option<Seq<char>> {
    match o {
        Some(c) => if trim(c).len() > 0 {
            Some(trim(c))
        } else {
            None
        },
        None => None,
    }
}

/// The host name: `/etc/hostname`, else `/proc/sys/kernel/hostname`, each
/// trimmed and used only when not blank, else the name the system reports,
/// else `Unknown`.
pub open spec fn hostname_of(
    etc_hostname: Option<Seq<char>>,
    kernel_hostname: Option<Seq<char>>,
    reported: Option<Seq<char>>,
) -> Seq<char> {
    match nonblank(etc_hostname) {
        Some(n) => n,
        None => match nonblank(kernel_hostname) {
            Some(n) => n,
            None => match reported {
                Some(n) => n,
                None => "Unknown"@,
            },
        },
    }
}

/// The host name is the first of `/etc/hostname` and the kernel's host name
/// that is not blank, trimmed; else the reported name; else `Unknown`.
pub proof fn lemma_hostname_choice(
    etc_hostname: Option<Seq<char>>,
    kernel_hostname: Option<Seq<char>>,
    reported: Option<Seq<char>>,
)
    ensures
        match etc_hostname {
            Some(c) => trim(c).len() > 0 ==> hostname_of(etc_hostname, kernel_hostname, reported)
                == trim(c),
            None => true,
        },
        match (etc_hostname, kernel_hostname) {
            (Some(c), Some(k)) => trim(c).len() == 0 && trim(k).len() > 0 ==> hostname_of(
                etc_hostname,
                kernel_hostname,
                reported,
            ) == trim(k),
            (None, Some(k)) => trim(k).len() > 0 ==> hostname_of(
                etc_hostname,
                kernel_hostname,
                reported,
            ) == trim(k),
            _ => true,
        },
        (etc_hostname is None || trim(etc_hostname->0).len() == 0) && (kernel_hostname is None
            || trim(kernel_hostname->0).len() == 0) ==> hostname_of(
            etc_hostname,
            kernel_hostname,
            reported,
        ) == match reported {
            Some(r) => r,
            None => "Unknown"@,
        },
{
}

fn nonblank_text(o: Option<&str>) -> (r: Option<String>)
    ensures
        opt_string_view(r) == nonblank(opt_view(o)),
{
    match o {
        Some(c) => {
            let t = trimmed(c);
            if t.as_str().unicode_len() > 0 {
                Some(t)
            } else {
                None
            }
        },
        None => None,
    }
}

/// The host name, from the contents of `/etc/hostname` and
/// `/proc/sys/kernel/hostname` (`None` where unreadable) and the name the
/// system reports.
pub fn choose_hostname(
    etc_hostname: Option<&str>,
    kernel_hostname: Option<&str>,
    reported: Option<String>,
) -> (r: String)
    ensures
        r@ == hostname_of(opt_view(etc_hostname), opt_view(kernel_hostname), opt_string_view(reported)),
{
    if let Some(n) = nonblank_text(etc_hostname) {
        return n;
    }
    if let Some(n) = nonblank_text(kernel_hostname) {
        return n;
    }
    match reported {
        Some(n) => n,
        None => String::from_str("Unknown"),
    }
}

/// The value of an `os-release` line for `key`: the trimmed line must begin
/// with `key`; the rest, without surrounding double quotes.
pub open spec fn release_value(l: Seq<char>, key: Seq<char>) -> Option<Seq<char>> {
    let t = trim(l);
    if key.is_prefix_of(t) {
        Some(trim_char(t.skip(key.len() as int), '"'))
    } else {
        None
    }
}

/// The value for `key` on the last line of `ls` that has one.
pub open spec fn last_release_value(ls: Seq<Seq<char>>, key: Seq<char>) -> Option<Seq<char>>
    decreases ls.len(),
{
    if ls.len() == 0 {
        None
    } else {
        match release_value(ls.last(), key) {
            Some(v) => Some(v),
            None => last_release_value(ls.drop_last(), key),
        }
    }
}

proof fn lemma_last_value_at(ls: Seq<Seq<char>>, key: Seq<char>, i: int)
    requires
        0 <= i < ls.len(),
        key.is_prefix_of(trim(ls[i])),
        forall|j: int| i < j < ls.len() ==> !key.is_prefix_of(#[trigger] trim(ls[j])),
    ensures
        last_release_value(ls, key) == Some(trim_char(trim(ls[i]).skip(key.len() as int), '"')),
    decreases ls.len(),
{
    if i < ls.len() - 1 {
        assert(!key.is_prefix_of(trim(ls[ls.len() - 1])));
        let d = ls.drop_last();
        assert forall|j: int| i < j < d.len() implies !key.is_prefix_of(#[trigger] trim(d[j])) by {
            assert(d[j] == ls[j]);
            assert(!key.is_prefix_of(trim(ls[j])));
        }
        lemma_last_value_at(d, key, i);
    }
}

proof fn lemma_last_value_none(ls: Seq<Seq<char>>, key: Seq<char>)
    requires
        forall|j: int| 0 <= j < ls.len() ==> !key.is_prefix_of(#[trigger] trim(ls[j])),
    ensures
        last_release_value(ls, key) is None,
    decreases ls.len(),
{
    if ls.len() > 0 {
        assert(!key.is_prefix_of(trim(ls[ls.len() - 1])));
        let d = ls.drop_last();
        assert forall|j: int| 0 <= j < d.len() implies !key.is_prefix_of(#[trigger] trim(d[j])) by {
            assert(d[j] == ls[j]);
            assert(!key.is_prefix_of(trim(ls[j])));
        }
        lemma_last_value_none(d, key);
    }
}

/// The value on an `os-release` line that begins, once trimmed, with `key`:
/// the rest of the trimmed line without surrounding double quotes.
pub open spec fn value_after(l: Seq<char>, key: Seq<char>) -> Seq<char> {
    trim_char(trim(l).skip(key.len() as int), '"')
}

/// When the last `PRETTY_NAME=` line of `os-release` has a non-empty value,
/// that value names the system, whatever `NAME=` and `VERSION=` lines there are.
pub proof fn lemma_os_prefers_pretty_name(content: Seq<char>, i: int)
    requires
        0 <= i < lines(content).len(),
        "PRETTY_NAME="@.is_prefix_of(trim(lines(content)[i])),
        forall|j: int|
            i < j < lines(content).len() ==> !"PRETTY_NAME="@.is_prefix_of(
                #[trigger] trim(lines(content)[j]),
            ),
        value_after(lines(content)[i], "PRETTY_NAME="@).len() > 0,
    ensures
        os_from_release(content) == Some(value_after(lines(content)[i], "PRETTY_NAME="@)),
{
    lemma_last_value_at(lines(content), "PRETTY_NAME="@, i);
}

/// Without a `PRETTY_NAME=` line, the system is named by the value of the
/// last `NAME=` line, a space, and the value of the last `VERSION=` line.
pub proof fn lemma_os_name_and_version(content: Seq<char>, n: int, v: int)
    requires
        forall|j: int|
            0 <= j < lines(content).len() ==> !"PRETTY_NAME="@.is_prefix_of(
                #[trigger] trim(lines(content)[j]),
            ),
        0 <= n < lines(content).len(),
        "NAME="@.is_prefix_of(trim(lines(content)[n])),
        forall|j: int|
            n < j < lines(content).len() ==> !"NAME="@.is_prefix_of(
                #[trigger] trim(lines(content)[j]),
            ),
        0 <= v < lines(content).len(),
        "VERSION="@.is_prefix_of(trim(lines(content)[v])),
        forall|j: int|
            v < j < lines(content).len() ==> !"VERSION="@.is_prefix_of(
                #[trigger] trim(lines(content)[j]),
            ),
    ensures
        os_from_release(content) == Some(
            value_after(lines(content)[n], "NAME="@) + seq![' '] + value_after(
                lines(content)[v],
                "VERSION="@,
            ),
        ),
{
    lemma_last_value_none(lines(content), "PRETTY_NAME="@);
    lemma_last_value_at(lines(content), "NAME="@, n);
    lemma_last_value_at(lines(content), "VERSION="@, v);
}

/// The operating system named by an `os-release` file: its `PRETTY_NAME`
/// when not empty, else its `NAME` followed by a space and its `VERSION`
/// (or `NAME` alone), else none.
pub open spec fn os_from_release(content: Seq<char>) -> Option<Seq<char>> {
    let ls = lines(content);
    let pretty = last_release_value(ls, "PRETTY_NAME="@);
    if pretty is Some && pretty->0.len() > 0 {
        pretty
    } else {
        match last_release_value(ls, "NAME="@) {
            Some(n) => match last_release_value(ls, "VERSION="@) {
                Some(v) => Some(n + seq![' '] + v),
                None => Some(n),
            },
            None => None,
        }
    }
}

/// The operating system from what the system reports, when `os-release`
/// does not name it: name (or `Linux`), a space and version, trimmed, or
/// `Linux` when that is blank.
pub open spec fn os_fallback(name: Option<Seq<char>>, version: Option<Seq<char>>) -> Seq<char> {
    let os = match name {
        Some(n) => n,
        None => "Linux"@,
    };
    let ver = match version {
        Some(v) => v,
        None => Seq::<char>::empty(),
    };
    let t = trim(os + seq![' '] + ver);
    if t.len() == 0 {
        "Linux"@
    } else {
        t
    }
}

/// The operating system shown on the dashboard.
pub open spec fn os_name(
    release: Option<Seq<char>>,
    name: Option<Seq<char>>,
    version: Option<Seq<char>>,
) -> Seq<char> {
    match release {
        Some(c) => match os_from_release(c) {
            Some(o) => o,
            None => os_fallback(name, version),
        },
        None => os_fallback(name, version),
    }
}

fn release_value_in(s: &[char], a: usize, b: usize, key: &[char]) -> (r: Option<String>)
    requires
        a <= b <= s@.len(),
    ensures
        opt_string_view(r) == release_value(s@.subrange(a as int, b as int), key@),
{
    let (ta, tb) = trim_range(s, a, b);
    if !has_prefix(s, ta, tb, key) {
        return None;
    }
    let k = ta + key.len();
    assert(s@.subrange(ta as int, tb as int).skip(key@.len() as int) =~= s@.subrange(
        k as int,
        tb as int,
    ));
    let (qa, qb) = trim_char_range(s, k, tb, '"');
    Some(string_of_range(s, qa, qb))
}

/// The operating system named by the `os-release` file with content `content`.
pub fn os_from_release_text(content: &str) -> (r: Option<String>)
    ensures
        opt_string_view(r) == os_from_release(content@),
{
    let s = chars_of(content);
    let ls = line_ranges(&s);
    let ghost lv = lines(s@);
    let pk = chars_of("PRETTY_NAME=");
    let nk = chars_of("NAME=");
    let vk = chars_of("VERSION=");
    let mut pretty: Option<String> = None;
    let mut name: Option<String> = None;
    let mut version: Option<String> = None;
    let mut i: usize = 0;
    assert(lv.take(0) =~= Seq::<Seq<char>>::empty());
    while i < ls.len()
        invariant
            lv == lines(s@),
            s@ == content@,
            pk@ == "PRETTY_NAME="@,
            nk@ == "NAME="@,
            vk@ == "VERSION="@,
            crate::text::ranges_within(s@, ls@),
            crate::text::range_views(s@, ls@) == lv,
            i <= ls@.len(),
            opt_string_view(pretty) == last_release_value(lv.take(i as int), "PRETTY_NAME="@),
            opt_string_view(name) == last_release_value(lv.take(i as int), "NAME="@),
            opt_string_view(version) == last_release_value(lv.take(i as int), "VERSION="@),
        decreases ls@.len() - i,
    {
        proof {
            lemma_range_at(s@, ls@, lv, i as int);
            assert(lv.take(i + 1).drop_last() =~= lv.take(i as int));
            assert(lv.take(i + 1).last() == lv[i as int]);
        }
        let (a, b) = ls[i];
        let ghost l = s@.subrange(a as int, b as int);
        proof {
            lemma_release_keys_exclusive(l);
        }
        if let Some(v) = release_value_in(&s, a, b, &pk) {
            pretty = Some(v);
        } else if let Some(v) = release_value_in(&s, a, b, &nk) {
            name = Some(v);
        } else if let Some(v) = release_value_in(&s, a, b, &vk) {
            version = Some(v);
        }
        i = i + 1;
    }
    assert(lv.take(ls@.len() as int) =~= lv);
    if let Some(p) = pretty {
        if p.as_str().unicode_len() > 0 {
            return Some(p);
        }
    }
    match name {
        Some(n) => match version {
            Some(v) => {
                let mut r = n;
                r.push(' ');
                r.append(v.as_str());
                Some(r)
            },
            None => Some(n),
        },
        None => None,
    }
}

/// A line of `os-release` holds a value for at most one of the three keys.
proof fn lemma_release_keys_exclusive(l: Seq<char>)
    ensures
        release_value(l, "PRETTY_NAME="@) is Some ==> release_value(l, "NAME="@) is None
            && release_value(l, "VERSION="@) is None,
        release_value(l, "NAME="@) is Some ==> release_value(l, "VERSION="@) is None,
{
    reveal_strlit("PRETTY_NAME=");
    reveal_strlit("NAME=");
    reveal_strlit("VERSION=");
    let t = trim(l);
    if "PRETTY_NAME="@.is_prefix_of(t) {
        assert(t.subrange(0, 12)[0] == t[0]);
        if "NAME="@.is_prefix_of(t) || "VERSION="@.is_prefix_of(t) {
            assert(t.subrange(0, 5)[0] == t[0]);
        }
    }
    if "NAME="@.is_prefix_of(t) {
        assert(t.subrange(0, 5)[0] == t[0]);
        if "VERSION="@.is_prefix_of(t) {
            assert(t.subrange(0, 8)[0] == t[0]);
        }
    }
}

/// The operating system from what the system reports.
pub fn os_fallback_text(name: Option<String>, version: Option<String>) -> (r: String)
    ensures
        r@ == os_fallback(opt_string_view(name), opt_string_view(version)),
{
    let ghost os = match opt_string_view(name) {
        Some(n) => n,
        None => "Linux"@,
    };
    let ghost ver = match opt_string_view(version) {
        Some(v) => v,
        None => Seq::<char>::empty(),
    };
    let mut combined = match name {
        Some(n) => n,
        None => String::from_str("Linux"),
    };
    combined.push(' ');
    if let Some(v) = version {
        combined.append(v.as_str());
    }
    assert(combined@ =~= os + seq![' '] + ver);
    let t = trimmed(combined.as_str());
    if t.as_str().unicode_len() == 0 {
        String::from_str("Linux")
    } else {
        t
    }
}

/// The operating system shown on the dashboard, from the content of
/// `/etc/os-release` (`None` where unreadable) and the name and version the
/// system reports.
pub fn choose_os(release: Option<&str>, name: Option<String>, version: Option<String>) -> (r:
    String)
    ensures
        r@ == os_name(opt_view(release), opt_string_view(name), opt_string_view(version)),
{
    if let Some(c) = release {
        if let Some(o) = os_from_release_text(c) {
            return o;
        }
    }
    os_fallback_text(name, version)
}


/// The uptime as the dashboard shows it: whole days, the hours and the
/// minutes left over, as `<d>d <h>h <m>m`.
pub open spec fn uptime_text(up: nat) -> Seq<char> {
    decimal(up / 86400) + "d "@ + decimal((up / 3600) % 24) + "h "@ + decimal((up / 60) % 60)
        + "m"@
}

/// The uptime `uptime` (in seconds) as the dashboard shows it.
pub fn format_uptime(uptime: u64) -> (r: String)
    ensures
        r@ == uptime_text(uptime as nat),
{
    let minutes = (uptime / 60) % 60;
    let hours = (uptime / 3600) % 24;
    let days = uptime / 86400;
    let mut r = String::new();
    push_decimal(&mut r, days);
    r.append("d ");
    push_decimal(&mut r, hours);
    r.append("h ");
    push_decimal(&mut r, minutes);
    r.append("m");
    assert(r@ =~= uptime_text(uptime as nat));
    r
}

/// The days, hours and minutes shown for an uptime account for all of it but
/// the seconds of the last, unfinished minute.
pub proof fn lemma_uptime_parts(up: nat)
    ensures
        (up / 86400) * 86400 + ((up / 3600) % 24) * 3600 + ((up / 60) % 60) * 60 + up % 60 == up,
        (up / 3600) % 24 < 24,
        (up / 60) % 60 < 60,
{
    let m = up / 60;
    let h = up / 3600;
    let d = up / 86400;
    vstd::arithmetic::div_mod::lemma_fundamental_div_mod(up as int, 60);
    vstd::arithmetic::div_mod::lemma_div_denominator(up as int, 60, 60);
    vstd::arithmetic::div_mod::lemma_fundamental_div_mod(m as int, 60);
    vstd::arithmetic::div_mod::lemma_div_denominator(up as int, 3600, 24);
    vstd::arithmetic::div_mod::lemma_fundamental_div_mod(h as int, 24);
    assert(up == 60 * m + up % 60);
    assert(m == 60 * h + m % 60);
    assert(h == 24 * d + h % 24);
}

/// The uptime text shows whole days, then the hours (under 24) and the
/// minutes (under 60) that are left: for any split of the uptime into days,
/// hours, minutes and seconds within those bounds, the text shows exactly
/// those days, hours and minutes.
pub proof fn lemma_uptime_text_parts(up: nat, d: nat, h: nat, m: nat, sec: nat)
    requires
        d * 86400 + h * 3600 + m * 60 + sec == up,
        h < 24,
        m < 60,
        sec < 60,
    ensures
        uptime_text(up) == decimal(d) + "d "@ + decimal(h) + "h "@ + decimal(m) + "m"@,
{
    lemma_fundamental_div_mod_converse(up as int, 86400, d as int, (h * 3600 + m * 60 + sec) as int);
    lemma_fundamental_div_mod_converse(up as int, 3600, (d * 24 + h) as int, (m * 60 + sec) as int);
    lemma_fundamental_div_mod_converse((d * 24 + h) as int, 24, d as int, h as int);
    lemma_fundamental_div_mod_converse(up as int, 60, (d * 1440 + h * 60 + m) as int, sec as int);
    lemma_fundamental_div_mod_converse((d * 1440 + h * 60 + m) as int, 60, (d * 24 + h) as int, m as int);
}

/// The part of `s` between its first and its second `sep` (or its end), when
/// it has a `sep` (`s.split(sep).nth(1)`).
pub open spec fn second_field(s: Seq<char>, sep: char) -> Option<Seq<char>> {
    let k = run_before(s, sep);
    if k < s.len() {
        let rest = s.skip(k + 1int);
        Some(rest.take(run_before(rest, sep) as int))
    } else {
        None
    }
}

/// The text between the first `sep` and the next one (or the end): for
/// `p`, `sep`, `v` and a rest that is empty or begins with `sep`, where
/// neither `p` nor `v` holds `sep`, it is `v`; without a `sep` there is none.
pub proof fn lemma_second_field(p: Seq<char>, v: Seq<char>, rest: Seq<char>, sep: char)
    requires
        !p.contains(sep),
        !v.contains(sep),
        rest.len() == 0 || rest[0] == sep,
    ensures
        second_field(p + seq![sep] + v + rest, sep) == Some(v),
        second_field(p, sep) is None,
{
    crate::text::lemma_run_before_is_first(p + seq![sep] + v + rest, sep, p.len() as int);
    let s = p + seq![sep] + v + rest;
    assert(s.skip(p.len() + 1int) =~= v + rest);
    crate::text::lemma_run_before_is_first(v + rest, sep, v.len() as int);
    assert((v + rest).take(v.len() as int) =~= v);
    crate::text::lemma_run_before_is_first(p, sep, p.len() as int);
}


/// The GPU core clock in MHz from `vcgencmd measure_clock core`: the value
/// after `=` in hertz, divided by a million and cut to 32 bits, or 0 when the
/// command failed or its output has no such value.
pub open spec fn gpu_mhz(success: bool, out: Seq<char>) -> nat {
    if !success {
        0
    } else {
        match second_field(out, '=') {
            Some(f) => match parse_u64(trim(f)) {
                Some(v) => (v / 1_000_000) % 0x1_0000_0000,
                None => 0,
            },
            None => 0,
        }
    }
}

/// The GPU core clock in MHz, from whether `vcgencmd measure_clock core`
/// succeeded and its output.
pub fn gpu_freq_mhz(success: bool, stdout: &str) -> (r: u32)
    ensures
        r == gpu_mhz(success, stdout@),
{
    if !success {
        return 0;
    }
    let s = chars_of(stdout);
    let n = s.len();
    assert(s@.subrange(0, n as int) =~= s@);
    let k = find_char(&s, 0, n, '=');
    if k == n {
        return 0;
    }
    let e = find_char(&s, k + 1, n, '=');
    assert(s@.skip(k + 1) =~= s@.subrange(k + 1, n as int));
    assert(s@.skip(k + 1).take(e - (k + 1)) =~= s@.subrange(k + 1, e as int));
    let (a, b) = trim_range(&s, k + 1, e);
    match parse_range(&s, a, b, 10, 0xffff_ffff_ffff_ffff) {
        Some(v) => ((v / 1_000_000) % 0x1_0000_0000) as u32,
        None => 0,
    }
}

/// What reading one `/sys/class/hwmon` entry gave: its `name` file and its
/// `fan1_input` file (`None` where unreadable).
#[derive(Clone, Debug)]
pub struct HwmonSensor {
    pub name: Option<String>,
    pub fan_input: Option<String>,
}

/// A sensor is the PWM fan when its trimmed name reads `pwmfan` and its fan
/// input could be read.
pub open spec fn is_pwm_fan(s: HwmonSensor) -> bool {
    &&& s.name matches Some(n) && trim(n@) == "pwmfan"@
    &&& s.fan_input is Some
}

/// The fan speed in a `fan1_input` file, or 0 when it is not a `u32`.
pub open spec fn fan_value(content: Seq<char>) -> nat {
    match parse_u32(trim(content)) {
        Some(v) => v,
        None => 0,
    }
}

/// The speed of the first PWM fan of `ss`, or 0 when there is none.
pub open spec fn fan_rpm_of(ss: Seq<HwmonSensor>) -> nat
    decreases ss.len(),
{
    if ss.len() == 0 {
        0
    } else if is_pwm_fan(ss[0]) {
        fan_value(ss[0].fan_input->0@)
    } else {
        fan_rpm_of(ss.drop_first())
    }
}

/// The fan speed comes from the first entry named (trimmed) `pwmfan` whose
/// fan input could be read: its trimmed input as a `u32`, or 0; without such
/// an entry it is 0.
pub proof fn lemma_fan_from_first_pwmfan(ss: Seq<HwmonSensor>, i: int)
    requires
        0 <= i < ss.len(),
        ss[i].name matches Some(n) && trim(n@) == "pwmfan"@,
        ss[i].fan_input is Some,
        forall|j: int|
            0 <= j < i ==> !(#[trigger] ss[j].name matches Some(n) && trim(n@) == "pwmfan"@
                && ss[j].fan_input is Some),
    ensures
        fan_rpm_of(ss) == match parse_u32(trim(ss[i].fan_input->0@)) {
            Some(v) => v,
            None => 0,
        },
    decreases i,
{
    if i > 0 {
        let d = ss.drop_first();
        assert(!is_pwm_fan(ss[0]));
        assert forall|j: int|
            0 <= j < i - 1 implies !(#[trigger] d[j].name matches Some(n) && trim(n@) == "pwmfan"@
            && d[j].fan_input is Some) by {
            assert(d[j] == ss[j + 1]);
        }
        lemma_fan_from_first_pwmfan(d, i - 1);
    }
}

/// Without a readable `pwmfan` entry the fan speed is 0.
pub proof fn lemma_fan_without_pwmfan(ss: Seq<HwmonSensor>)
    requires
        forall|j: int|
            0 <= j < ss.len() ==> !(#[trigger] ss[j].name matches Some(n) && trim(n@)
                == "pwmfan"@ && ss[j].fan_input is Some),
    ensures
        fan_rpm_of(ss) == 0,
    decreases ss.len(),
{
    if ss.len() > 0 {
        let d = ss.drop_first();
        assert(!is_pwm_fan(ss[0]));
        assert forall|j: int|
            0 <= j < d.len() implies !(#[trigger] d[j].name matches Some(n) && trim(n@)
            == "pwmfan"@ && d[j].fan_input is Some) by {
            assert(d[j] == ss[j + 1]);
        }
        lemma_fan_without_pwmfan(d);
    }
}

/// The fan speed in RPM, from the `/sys/class/hwmon` entries in the order
/// the directory lists them.
pub fn fan_rpm(sensors: &Vec<HwmonSensor>) -> (r: u32)
    ensures
        r == fan_rpm_of(sensors@),
{
    let mut i: usize = 0;
    assert(sensors@.skip(0) =~= sensors@);
    while i < sensors.len()
        invariant
            i <= sensors@.len(),
            fan_rpm_of(sensors@) == fan_rpm_of(sensors@.skip(i as int)),
        decreases sensors@.len() - i,
    {
        assert(sensors@.skip(i as int)[0] == sensors@[i as int]);
        assert(sensors@.skip(i as int).drop_first() =~= sensors@.skip(i + 1));
        if let Some(name) = &sensors[i].name {
            if let Some(input) = &sensors[i].fan_input {
                let t = trimmed(name.as_str());
                let tc = chars_of(t.as_str());
                if equals_str(&tc, "pwmfan") {
                    let c = chars_of(input.as_str());
                    assert(c@.subrange(0, c@.len() as int) =~= c@);
                    let (a, b) = trim_range(&c, 0, c.len());
                    return match parse_range(&c, a, b, 10, 0xffff_ffff) {
                        Some(v) => v as u32,
                        None => 0,
                    };
                }
            }
        }
        i = i + 1;
    }
    0
}


/// A block device whose traffic is counted: an SD card, a SATA/USB disk or an NVMe drive.
pub open spec fn disk_device(name: Seq<char>) -> bool {
    ||| "mmcblk"@.is_prefix_of(name)
    ||| "sda"@.is_prefix_of(name)
    ||| "nvme"@.is_prefix_of(name)
}

/// The sectors read and written on a `/proc/diskstats` line that counts: at
/// least 13 fields, a counted device in field 2, and `u64`s in fields 5 and 9.
pub open spec fn line_sectors(l: Seq<char>) -> Option<(nat, nat)> {
    let w = words(l);
    if w.len() >= 13 && disk_device(w[2]) && parse_u64(w[5]) is Some && parse_u64(w[9]) is Some {
        Some((parse_u64(w[5])->0, parse_u64(w[9])->0))
    } else {
        None
    }
}

/// The bytes read and written over the lines `ls`, 512 to a sector.
pub open spec fn disk_bytes(ls: Seq<Seq<char>>) -> (nat, nat)
    decreases ls.len(),
{
    if ls.len() == 0 {
        (0, 0)
    } else {
        let prev = disk_bytes(ls.drop_last());
        match line_sectors(ls.last()) {
            Some(rw) => (prev.0 + rw.0 * 512, prev.1 + rw.1 * 512),
            None => prev,
        }
    }
}

/// The bytes of a `/proc/diskstats` text add up line by line.
pub proof fn lemma_disk_bytes_concat(a: Seq<Seq<char>>, b: Seq<Seq<char>>)
    ensures
        disk_bytes(a + b).0 == disk_bytes(a).0 + disk_bytes(b).0,
        disk_bytes(a + b).1 == disk_bytes(a).1 + disk_bytes(b).1,
    decreases b.len(),
{
    if b.len() > 0 {
        lemma_disk_bytes_concat(a, b.drop_last());
        assert((a + b).drop_last() =~= a + b.drop_last());
        assert((a + b).last() == b.last());
    } else {
        assert(a + b =~= a);
    }
}

/// One line counts 512 bytes for each sector read (field 5) and written
/// (field 9) when it has at least 13 fields, field 2 names an SD card, SATA
/// disk or NVMe drive, and both fields are `u64`s; else it counts nothing.
pub proof fn lemma_disk_bytes_line(l: Seq<char>)
    ensures
        ({
            let w = words(l);
            if w.len() >= 13 && ("mmcblk"@.is_prefix_of(w[2]) || "sda"@.is_prefix_of(w[2])
                || "nvme"@.is_prefix_of(w[2])) && parse_u64(w[5]) is Some && parse_u64(w[9]) is Some {
                disk_bytes(seq![l]) == (parse_u64(w[5])->0 * 512, parse_u64(w[9])->0 * 512)
            } else {
                disk_bytes(seq![l]) == (0nat, 0nat)
            }
        }),
{
    assert(seq![l].drop_last() =~= Seq::<Seq<char>>::empty());
    assert(seq![l].last() == l);
    assert(disk_bytes(seq![l].drop_last()) == (0nat, 0nat));
    assert(disk_bytes(seq![l]) == match line_sectors(l) {
        Some(rw) => (0 + rw.0 * 512, 0 + rw.1 * 512),
        None => (0nat, 0nat),
    });
}

proof fn lemma_disk_bytes_grow(ls: Seq<Seq<char>>, k: int)
    requires
        0 <= k <= ls.len(),
    ensures
        disk_bytes(ls.take(k)).0 <= disk_bytes(ls).0,
        disk_bytes(ls.take(k)).1 <= disk_bytes(ls).1,
    decreases ls.len(),
{
    if k < ls.len() {
        lemma_disk_bytes_grow(ls.drop_last(), k);
        assert(ls.drop_last().take(k) =~= ls.take(k));
    } else {
        assert(ls.take(k) =~= ls);
    }
}

fn line_sectors_in(s: &[char], a: usize, b: usize) -> (r: Option<(u64, u64)>)
    requires
        a <= b <= s@.len(),
    ensures
        match line_sectors(s@.subrange(a as int, b as int)) {
            Some(rw) => r == Some((rw.0 as u64, rw.1 as u64)),
            None => r is None,
        },
{
    let ws = word_ranges(s, a, b);
    let ghost wv = words(s@.subrange(a as int, b as int));
    if ws.len() < 13 {
        return None;
    }
    proof {
        lemma_range_at(s@, ws@, wv, 2);
        lemma_range_at(s@, ws@, wv, 5);
        lemma_range_at(s@, ws@, wv, 9);
    }
    let (na, nb) = ws[2];
    let mmc = chars_of("mmcblk");
    let sda = chars_of("sda");
    let nvme = chars_of("nvme");
    if !(has_prefix(s, na, nb, &mmc) || has_prefix(s, na, nb, &sda) || has_prefix(s, na, nb, &nvme)) {
        return None;
    }
    let (ra, rb) = ws[5];
    let (wa, wb) = ws[9];
    let r = parse_range(s, ra, rb, 10, 0xffff_ffff_ffff_ffff);
    let w = parse_range(s, wa, wb, 10, 0xffff_ffff_ffff_ffff);
    match (r, w) {
        (Some(x), Some(y)) => Some((x, y)),
        _ => None,
    }
}

/// The bytes read and written on the counted devices, from the content of
/// `/proc/diskstats`; `None` when a total does not fit in a `u64`.
pub fn disk_bytes_read_written(content: &str) -> (r: Option<(u64, u64)>)
    ensures
        ({
            let t = disk_bytes(lines(content@));
            if t.0 <= u64::MAX && t.1 <= u64::MAX {
                r == Some((t.0 as u64, t.1 as u64))
            } else {
                r is None
            }
        }),
{
    let s = chars_of(content);
    let ls = line_ranges(&s);
    let ghost lv = lines(s@);
    let mut read: u64 = 0;
    let mut written: u64 = 0;
    let mut i: usize = 0;
    assert(lv.take(0) =~= Seq::<Seq<char>>::empty());
    while i < ls.len()
        invariant
            lv == lines(s@),
            s@ == content@,
            crate::text::ranges_within(s@, ls@),
            crate::text::range_views(s@, ls@) == lv,
            i <= ls@.len(),
            read as nat == disk_bytes(lv.take(i as int)).0,
            written as nat == disk_bytes(lv.take(i as int)).1,
        decreases ls@.len() - i,
    {
        proof {
            lemma_range_at(s@, ls@, lv, i as int);
            assert(lv.take(i + 1).drop_last() =~= lv.take(i as int));
            assert(lv.take(i + 1).last() == lv[i as int]);
        }
        let (a, b) = ls[i];
        if let Some((x, y)) = line_sectors_in(&s, a, b) {
            let nr = (read as u128) + (x as u128) * 512;
            let nw = (written as u128) + (y as u128) * 512;
            if nr > 0xffff_ffff_ffff_ffff || nw > 0xffff_ffff_ffff_ffff {
                proof {
                    lemma_disk_bytes_grow(lv, i + 1);
                }
                assert(lv.take(ls@.len() as int) =~= lv);
                return None;
            }
            read = nr as u64;
            written = nw as u64;
        }
        i = i + 1;
    }
    assert(lv.take(ls@.len() as int) =~= lv);
    Some((read, written))
}

/// The growth of a counter since its last sample, as the rates use it: none
/// before the first sample (a last value of 0), and none when it went back.
pub open spec fn counter_delta_spec(last: u64, current: u64) -> u64 {
    if last > 0 && current >= last {
        (current - last) as u64
    } else {
        0
    }
}

/// The growth added to the previous value gives the new one whenever the
/// counter had a previous value and did not go back; otherwise the growth is 0.
pub proof fn lemma_counter_growth(last: u64, current: u64)
    ensures
        0 < last <= current ==> last + counter_delta_spec(last, current) == current,
        last == 0 || current < last ==> counter_delta_spec(last, current) == 0,
{
}

/// The growth of a counter since its last sample, as the rates use it: none
/// before the first sample (a last value of 0), and none when it went back.
pub fn counter_delta(last: u64, current: u64) -> (r: u64)
    ensures
        r == counter_delta_spec(last, current),
{
    if last > 0 {
        current.saturating_sub(last)
    } else {
        0
    }
}

/// The byte counters seen at the previous sample, from which the rates of
/// the next sample are taken (all 0 before the first sample).
#[derive(Clone, Copy, Debug)]
pub struct ByteCounters {
    pub read: u64,
    pub written: u64,
    pub received: u64,
    pub sent: u64,
}

/// The counter state before the first sample.
pub fn initial_counters() -> (r: ByteCounters)
    ensures
        r.read == 0 && r.written == 0 && r.received == 0 && r.sent == 0,
{
    ByteCounters { read: 0, written: 0, received: 0, sent: 0 }
}

/// Takes the counters of a new sample: returns how much each grew since the
/// previous sample (as `counter_delta` gives it) and keeps the new values
/// for the next sample.
pub fn advance_counters(state: &mut ByteCounters, sample: ByteCounters) -> (r: ByteCounters)
    ensures
        r.read == counter_delta_spec(old(state).read, sample.read),
        r.written == counter_delta_spec(old(state).written, sample.written),
        r.received == counter_delta_spec(old(state).received, sample.received),
        r.sent == counter_delta_spec(old(state).sent, sample.sent),
        *final(state) == sample,
{
    let r = ByteCounters {
        read: counter_delta(state.read, sample.read),
        written: counter_delta(state.written, sample.written),
        received: counter_delta(state.received, sample.received),
        sent: counter_delta(state.sent, sample.sent),
    };
    *state = sample;
    r
}

/// The sum of `s`.
pub open spec fn sum_of(s: Seq<u64>) -> nat
    decreases s.len(),
{
    if s.len() == 0 {
        0
    } else {
        sum_of(s.drop_last()) + s.last() as nat
    }
}

proof fn lemma_sum_grows(s: Seq<u64>, k: int)
    requires
        0 <= k <= s.len(),
    ensures
        sum_of(s.take(k)) <= sum_of(s),
    decreases s.len(),
{
    if k < s.len() {
        lemma_sum_grows(s.drop_last(), k);
        assert(s.drop_last().take(k) =~= s.take(k));
    } else {
        assert(s.take(k) =~= s);
    }
}

/// The sum of the counters `values` (the bytes received or sent by each
/// network interface); `None` when it does not fit in a `u64`.
pub fn counters_total(values: &Vec<u64>) -> (r: Option<u64>)
    ensures
        sum_of(values@) <= u64::MAX ==> r == Some(sum_of(values@) as u64),
        sum_of(values@) > u64::MAX ==> r is None,
{
    let mut total: u64 = 0;
    let mut i: usize = 0;
    assert(values@.take(0) =~= Seq::<u64>::empty());
    while i < values.len()
        invariant
            i <= values@.len(),
            total as nat == sum_of(values@.take(i as int)),
        decreases values@.len() - i,
    {
        assert(values@.take(i + 1).drop_last() =~= values@.take(i as int));
        assert(values@.take(i + 1).last() == values@[i as int]);
        match total.checked_add(values[i]) {
            Some(t) => total = t,
            None => {
                proof {
                    lemma_sum_grows(values@, i + 1);
                }
                return None;
            },
        }
        i = i + 1;
    }
    assert(values@.take(values@.len() as int) =~= values@);
    Some(total)
}

} // verus!
