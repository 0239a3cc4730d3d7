//! Network interfaces: which directory entries are Ethernet or Wi-Fi
//! interfaces, and what the kernel files and the `ip`, `iw` and `wpa_cli`
//! tools report about them.
use vstd::prelude::*;
use crate::order::{lemma_lex_refl, lex_le, sort_strings, sorted};
use crate::letter_case::{lowercase, to_lowercase, to_uppercase, uppercase};
use crate::text::{
    chars_of, equals_str, find_char, has_prefix, join_ranges, join_spaced, lemma_range_at,
    line_ranges, lines, parse_bounded, parse_range, remove_all, remove_all_range, run_before,
    starts_with_str, string_of_range, strip_hex_marks, strip_hex_marks_range, trim, trim_range,
    trimmed, word_ranges, words,
};

verus! {

/// One Ethernet interface as the dashboard shows it.
#[derive(Clone, Debug)]
pub struct EthInterface {
    pub name: String,
    pub status: String,
    pub ip: String,
    pub speed: String,
}

/// The Wi-Fi interface as the dashboard shows it while its link is up.
#[derive(Clone, Debug)]
pub struct WifiInfo {
    pub name: String,
    pub status: String,
    pub ip: String,
    pub signal: String,
    pub freq: String,
    pub sec: String,
}

/// What the directory `/sys/class/net/<name>` holds that the choice of
/// interfaces looks at.
#[derive(Clone, Debug)]
pub struct InterfaceEntry {
    pub name: String,
    /// `<name>/wireless` exists.
    pub has_wireless_dir: bool,
    /// `<name>/phy80211` exists.
    pub has_phy80211_dir: bool,
    /// `<name>/device` exists (a physical device).
    pub has_device_dir: bool,
}

/// A name that wireless drivers give their interfaces.
pub open spec fn wireless_name(n: Seq<char>) -> bool {
    ||| "wl"@.is_prefix_of(n)
    ||| "wlan"@.is_prefix_of(n)
    ||| "wifi"@.is_prefix_of(n)
}

/// An interface is wireless when its directory has `wireless` or `phy80211`
/// or its name is a wireless one.
pub open spec fn wireless(n: Seq<char>, has_wireless_dir: bool, has_phy80211_dir: bool) -> bool {
    has_wireless_dir || has_phy80211_dir || wireless_name(n)
}

/// Whether the interface `name`, whose directory has the entries told by the
/// two flags, is a wireless interface.
pub fn is_wireless_interface(name: &str, has_wireless_dir: bool, has_phy80211_dir: bool) -> (r:
    bool)
    ensures
        r == wireless(name@, has_wireless_dir, has_phy80211_dir),
{
    if has_wireless_dir || has_phy80211_dir {
        return true;
    }
    let n = chars_of(name);
    starts_with_str(&n, "wl") || starts_with_str(&n, "wlan") || starts_with_str(&n, "wifi")
}

/// The loopback interface and the names of bridges, tunnels and container links.
pub open spec fn virtual_name(n: Seq<char>) -> bool {
    ||| n == "lo"@
    ||| "docker"@.is_prefix_of(n)
    ||| "br-"@.is_prefix_of(n)
    ||| "veth"@.is_prefix_of(n)
    ||| "virbr"@.is_prefix_of(n)
    ||| "tun"@.is_prefix_of(n)
    ||| "tap"@.is_prefix_of(n)
}

/// An entry that is listed as an Ethernet interface.
pub open spec fn is_eth_entry(e: InterfaceEntry) -> bool {
    &&& !virtual_name(e.name@)
    &&& !wireless(e.name@, e.has_wireless_dir, e.has_phy80211_dir)
    &&& (e.has_device_dir || "eth"@.is_prefix_of(e.name@) || "en"@.is_prefix_of(e.name@))
}

/// An entry that is a candidate Wi-Fi interface.
pub open spec fn is_wifi_entry(e: InterfaceEntry) -> bool {
    e.name@ != "lo"@ && wireless(e.name@, e.has_wireless_dir, e.has_phy80211_dir)
}

/// The names of the Ethernet entries of `es`, in the order of `es`.
pub open spec fn eth_names(es: Seq<InterfaceEntry>) -> Seq<String>
    decreases es.len(),
{
    if es.len() == 0 {
        seq![]
    } else if is_eth_entry(es.last()) {
        eth_names(es.drop_last()).push(es.last().name)
    } else {
        eth_names(es.drop_last())
    }
}

/// The names of the Wi-Fi entries of `es`, in the order of `es`.
pub open spec fn wifi_names(es: Seq<InterfaceEntry>) -> Seq<String>
    decreases es.len(),
{
    if es.len() == 0 {
        seq![]
    } else if is_wifi_entry(es.last()) {
        wifi_names(es.drop_last()).push(es.last().name)
    } else {
        wifi_names(es.drop_last())
    }
}

fn entry_is_eth(e: &InterfaceEntry) -> (r: bool)
    ensures
        r == is_eth_entry(*e),
{
    let n = chars_of(e.name.as_str());
    if equals_str(&n, "lo") || starts_with_str(&n, "docker") || starts_with_str(&n, "br-")
        || starts_with_str(&n, "veth") || starts_with_str(&n, "virbr") || starts_with_str(
        &n,
        "tun",
    ) || starts_with_str(&n, "tap") {
        return false;
    }
    if is_wireless_interface(e.name.as_str(), e.has_wireless_dir, e.has_phy80211_dir) {
        return false;
    }
    e.has_device_dir || starts_with_str(&n, "eth") || starts_with_str(&n, "en")
}

fn entry_is_wifi(e: &InterfaceEntry) -> (r: bool)
    ensures
        r == is_wifi_entry(*e),
{
    let n = chars_of(e.name.as_str());
    if equals_str(&n, "lo") {
        return false;
    }
    is_wireless_interface(e.name.as_str(), e.has_wireless_dir, e.has_phy80211_dir)
}

/// The names of the Ethernet interfaces among `entries`, sorted.
pub fn find_eth_interfaces(entries: &Vec<InterfaceEntry>) -> (r: Vec<String>)
    ensures
        sorted(r@),
        r@.to_multiset() == eth_names(entries@).to_multiset(),
{
    let mut names: Vec<String> = Vec::new();
    let mut i: usize = 0;
    while i < entries.len()
        invariant
            i <= entries@.len(),
            names@ == eth_names(entries@.take(i as int)),
        decreases entries@.len() - i,
    {
        assert(entries@.take(i + 1).drop_last() =~= entries@.take(i as int));
        assert(entries@.take(i + 1).last() == entries@[i as int]);
        if entry_is_eth(&entries[i]) {
            names.push(entries[i].name.clone());
        }
        i = i + 1;
    }
    assert(entries@.take(entries@.len() as int) =~= entries@);
    sort_strings(&names)
}

/// The first, in sorted order, of the Wi-Fi interfaces among `entries`.
pub fn find_wifi_interface(entries: &Vec<InterfaceEntry>) -> (r: Option<String>)
    ensures
        r is Some <==> wifi_names(entries@).len() > 0,
        r matches Some(n) ==> wifi_names(entries@).contains(n),
        r matches Some(n) ==> forall|k: int|
            0 <= k < wifi_names(entries@).len() ==> lex_le(n@, #[trigger] wifi_names(entries@)[k]@),
{
    broadcast use vstd::seq_lib::to_multiset_contains, vstd::seq_lib::to_multiset_len;

    let mut names: Vec<String> = Vec::new();
    let mut i: usize = 0;
    while i < entries.len()
        invariant
            i <= entries@.len(),
            names@ == wifi_names(entries@.take(i as int)),
        decreases entries@.len() - i,
    {
        assert(entries@.take(i + 1).drop_last() =~= entries@.take(i as int));
        assert(entries@.take(i + 1).last() == entries@[i as int]);
        if entry_is_wifi(&entries[i]) {
            names.push(entries[i].name.clone());
        }
        i = i + 1;
    }
    assert(entries@.take(entries@.len() as int) =~= entries@);
    let s = sort_strings(&names);
    if s.len() == 0 {
        proof {
            vstd::seq_lib::to_multiset_len(s@);
            vstd::seq_lib::to_multiset_len(names@);
        }
        return None;
    }
    let first = s[0].clone();
    proof {
        vstd::seq_lib::to_multiset_len(s@);
        vstd::seq_lib::to_multiset_len(names@);
        vstd::seq_lib::to_multiset_contains(s@, s@[0]);
        vstd::seq_lib::to_multiset_contains(names@, s@[0]);
        assert(s@.contains(s@[0]));
        assert forall|k: int| 0 <= k < names@.len() implies lex_le(
            first@,
            #[trigger] names@[k]@,
        ) by {
            assert(names@.contains(names@[k]));
            vstd::seq_lib::to_multiset_contains(names@, names@[k]);
            vstd::seq_lib::to_multiset_contains(s@, names@[k]);
            assert(s@.contains(names@[k]));
            let j = choose|j: int| 0 <= j < s@.len() && s@[j] == names@[k];
            if j == 0 {
                lemma_lex_refl(first@);
            }
        }
    }
    Some(first)
}

/// Which entries are Ethernet interfaces: never loopback, bridges, tunnels,
/// container links or wireless interfaces; otherwise those with a device
/// directory or an `eth`/`en` name.
pub proof fn lemma_eth_rules(e: InterfaceEntry)
    ensures
        e.name@ == "lo"@ ==> !is_eth_entry(e),
        "docker"@.is_prefix_of(e.name@) || "br-"@.is_prefix_of(e.name@) || "veth"@.is_prefix_of(
            e.name@,
        ) || "virbr"@.is_prefix_of(e.name@) || "tun"@.is_prefix_of(e.name@) || "tap"@.is_prefix_of(
            e.name@,
        ) ==> !is_eth_entry(e),
        e.has_wireless_dir || e.has_phy80211_dir || "wl"@.is_prefix_of(e.name@)
            || "wifi"@.is_prefix_of(e.name@) ==> !is_eth_entry(e),
        e.name@ != "lo"@ && !"docker"@.is_prefix_of(e.name@) && !"br-"@.is_prefix_of(e.name@)
            && !"veth"@.is_prefix_of(e.name@) && !"virbr"@.is_prefix_of(e.name@)
            && !"tun"@.is_prefix_of(e.name@) && !"tap"@.is_prefix_of(e.name@) && !e.has_wireless_dir
            && !e.has_phy80211_dir && !"wl"@.is_prefix_of(e.name@) && !"wlan"@.is_prefix_of(e.name@)
            && !"wifi"@.is_prefix_of(e.name@) && (e.has_device_dir || "eth"@.is_prefix_of(e.name@)
            || "en"@.is_prefix_of(e.name@)) ==> is_eth_entry(e),
        !e.has_device_dir && !"eth"@.is_prefix_of(e.name@) && !"en"@.is_prefix_of(e.name@)
            ==> !is_eth_entry(e),
{
}

/// Which entries are Wi-Fi candidates: every wireless interface but loopback.
pub proof fn lemma_wifi_rules(e: InterfaceEntry)
    ensures
        e.name@ == "lo"@ ==> !is_wifi_entry(e),
        e.name@ != "lo"@ && (e.has_wireless_dir || e.has_phy80211_dir || "wl"@.is_prefix_of(e.name@)
            || "wifi"@.is_prefix_of(e.name@)) ==> is_wifi_entry(e),
        !e.has_wireless_dir && !e.has_phy80211_dir && !"wl"@.is_prefix_of(e.name@)
            && !"wlan"@.is_prefix_of(e.name@) && !"wifi"@.is_prefix_of(e.name@) ==> !is_wifi_entry(e),
{
}

/// Every Ethernet entry has its name listed.
pub proof fn lemma_eth_names_members(es: Seq<InterfaceEntry>)
    ensures
        forall|i: int| 0 <= i < es.len() && is_eth_entry(es[i]) ==> eth_names(es).contains(
            #[trigger] es[i].name,
        ),
    decreases es.len(),
{
    if es.len() > 0 {
        let d = es.drop_last();
        lemma_eth_names_members(d);
        let n = eth_names(d);
        assert forall|i: int| 0 <= i < es.len() && is_eth_entry(es[i]) implies eth_names(
            es,
        ).contains(#[trigger] es[i].name) by {
            if i < es.len() - 1 {
                assert(d[i] == es[i]);
                assert(n.contains(d[i].name));
                let k = choose|k: int| 0 <= k < n.len() && n[k] == d[i].name;
                if is_eth_entry(es.last()) {
                    assert(eth_names(es)[k] == n[k]);
                }
            } else {
                assert(eth_names(es) == n.push(es.last().name));
                assert(eth_names(es)[n.len() as int] == es[i].name);
            }
        }
    }
}

/// Every listed Ethernet name is the name of an Ethernet entry: the one at the
/// index returned.
pub proof fn lemma_eth_name_source(es: Seq<InterfaceEntry>, k: int) -> (i: int)
    requires
        0 <= k < eth_names(es).len(),
    ensures
        0 <= i < es.len(),
        is_eth_entry(es[i]),
        eth_names(es)[k] == es[i].name,
    decreases es.len(),
{
    let d = es.drop_last();
    let n = eth_names(d);
    if k < n.len() {
        assert(eth_names(es)[k] == n[k]);
        let i = lemma_eth_name_source(d, k);
        assert(d[i] == es[i]);
        i
    } else {
        assert(eth_names(es)[k] == es.last().name);
        es.len() - 1
    }
}

/// Every Wi-Fi entry has its name listed.
pub proof fn lemma_wifi_names_members(es: Seq<InterfaceEntry>)
    ensures
        forall|i: int| 0 <= i < es.len() && is_wifi_entry(es[i]) ==> wifi_names(es).contains(
            #[trigger] es[i].name,
        ),
    decreases es.len(),
{
    if es.len() > 0 {
        let d = es.drop_last();
        lemma_wifi_names_members(d);
        let n = wifi_names(d);
        assert forall|i: int| 0 <= i < es.len() && is_wifi_entry(es[i]) implies wifi_names(
            es,
        ).contains(#[trigger] es[i].name) by {
            if i < es.len() - 1 {
                assert(d[i] == es[i]);
                assert(n.contains(d[i].name));
                let k = choose|k: int| 0 <= k < n.len() && n[k] == d[i].name;
                if is_wifi_entry(es.last()) {
                    assert(wifi_names(es)[k] == n[k]);
                }
            } else {
                assert(wifi_names(es) == n.push(es.last().name));
                assert(wifi_names(es)[n.len() as int] == es[i].name);
            }
        }
    }
}

/// Every listed Wi-Fi name is the name of a Wi-Fi entry: the one at the
/// index returned.
pub proof fn lemma_wifi_name_source(es: Seq<InterfaceEntry>, k: int) -> (i: int)
    requires
        0 <= k < wifi_names(es).len(),
    ensures
        0 <= i < es.len(),
        is_wifi_entry(es[i]),
        wifi_names(es)[k] == es[i].name,
    decreases es.len(),
{
    let d = es.drop_last();
    let n = wifi_names(d);
    if k < n.len() {
        assert(wifi_names(es)[k] == n[k]);
        let i = lemma_wifi_name_source(d, k);
        assert(d[i] == es[i]);
        i
    } else {
        assert(wifi_names(es)[k] == es.last().name);
        es.len() - 1
    }
}

/// No interface is listed both as an Ethernet and as a Wi-Fi interface, and
/// the loopback interface is listed as neither.
pub proof fn lemma_eth_wifi_disjoint(e: InterfaceEntry)
    ensures
        !(is_eth_entry(e) && is_wifi_entry(e)),
        e.name@ == "lo"@ ==> !is_eth_entry(e) && !is_wifi_entry(e),
{
}


/// The `flags` file of an interface tells that it is administratively down:
/// its trimmed content, without leading `0x`s, is a hexadecimal `u32` whose
/// lowest bit is clear.
pub open spec fn flags_down(content: Seq<char>) -> bool {
    match parse_bounded(strip_hex_marks(trim(content)), 16, u32::MAX as nat) {
        Some(v) => v % 2 == 0,
        None => false,
    }
}

/// A `flags` file that holds `0x` and then the hexadecimal digits `d`
/// (around white space allowed) tells that the interface is down exactly
/// when the value of `d` is even, i.e. the `IFF_UP` bit is clear; a file
/// without hexadecimal digits never does.
pub proof fn lemma_flags_down(c: Seq<char>, d: Seq<char>)
    requires
        trim(c) == "0x"@ + d,
        d.len() > 0,
        !(d.len() >= 2 && d[0] == '0' && d[1] == 'x'),
        crate::text::all_digits(d, 16),
        crate::text::digits_value(d, 16) <= u32::MAX,
    ensures
        flags_down(c) <==> crate::text::digits_value(d, 16) % 2 == 0,
{
    reveal_strlit("0x");
    let t = "0x"@ + d;
    assert(t[0] == '0' && t[1] == 'x');
    assert(t.skip(2) =~= d);
    assert(strip_hex_marks(t) == strip_hex_marks(d));
    assert(d[0] != '+') by {
        assert(crate::text::digit_value(d[0], 16) is Some);
        assert(('+' as u32) == 43);
    }
}

/// Whether the content of a `flags` file tells that the interface is down.
pub fn flags_say_down(content: &str) -> (r: bool)
    ensures
        r == flags_down(content@),
{
    let s = chars_of(content);
    assert(s@.subrange(0, s@.len() as int) =~= s@);
    let (a, b) = trim_range(&s, 0, s.len());
    let c = strip_hex_marks_range(&s, a, b);
    match parse_range(&s, c, b, 16, 0xffff_ffff) {
        Some(v) => v % 2 == 0,
        None => false,
    }
}

/// Whether an already lowercased `operstate` reads `down`.
pub fn state_is_down(lowered: &str) -> (r: bool)
    ensures
        r == (lowered@ == "down"@),
{
    let s = chars_of(lowered);
    equals_str(&s, "down")
}

/// Whether an interface is disabled, from the contents of its `flags` and
/// `operstate` files (`None` where a file could not be read).
pub fn is_interface_disabled(flags: Option<&str>, operstate: Option<&str>) -> (r: bool)
    ensures
        r == ((flags matches Some(f) && flags_down(f@)) || (operstate matches Some(st)
            && lowercase(trim(st@)) == "down"@)),
{
    if let Some(f) = flags {
        if flags_say_down(f) {
            return true;
        }
    }
    if let Some(st) = operstate {
        let t = trimmed(st);
        let low = to_lowercase(t.as_str());
        return state_is_down(low.as_str());
    }
    false
}

/// The status shown for an interface, from the content of its `operstate`
/// file: trimmed and in upper case, or `DOWN` when it could not be read.
pub fn net_status(operstate: Option<&str>) -> (r: String)
    ensures
        r@ == (match operstate {
            Some(st) => uppercase(trim(st@)),
            None => "DOWN"@,
        }),
{
    match operstate {
        Some(st) => {
            let t = trimmed(st);
            to_uppercase(t.as_str())
        },
        None => String::from_str("DOWN"),
    }
}

/// `o`'s text, or `--` for none.
pub open spec fn or_dashes(o: Option<Seq<char>>) -> Seq<char> {
    match o {
        Some(v) => v,
        None => "--"@,
    }
}

/// The address of an `inet ` line of `ip addr show`: the second word of the
/// trimmed line, up to its first `/`.
pub open spec fn inet_address(l: Seq<char>) -> Option<Seq<char>> {
    let t = trim(l);
    if "inet "@.is_prefix_of(t) && words(t).len() >= 2 {
        Some(words(t)[1].take(run_before(words(t)[1], '/') as int))
    } else {
        None
    }
}

/// The address on the first line of `ls` that has one.
pub open spec fn first_inet(ls: Seq<Seq<char>>) -> Option<Seq<char>>
    decreases ls.len(),
{
    if ls.len() == 0 {
        None
    } else {
        match inet_address(ls[0]) {
            Some(a) => Some(a),
            None => first_inet(ls.drop_first()),
        }
    }
}

/// A line of `ip addr show` that carries an address: trimmed, it begins
/// with `inet ` and has a second word.
pub open spec fn carries_inet(l: Seq<char>) -> bool {
    "inet "@.is_prefix_of(trim(l)) && words(trim(l)).len() >= 2
}

/// The address comes from the first line that carries one: the second word
/// of that trimmed line, up to its first `/`, so it holds no `/`.
pub proof fn lemma_ip_from_first_inet_line(ls: Seq<Seq<char>>, i: int)
    requires
        0 <= i < ls.len(),
        carries_inet(ls[i]),
        forall|j: int| 0 <= j < i ==> !carries_inet(#[trigger] ls[j]),
    ensures
        first_inet(ls) == Some(
            words(trim(ls[i]))[1].take(run_before(words(trim(ls[i]))[1], '/') as int),
        ),
        !first_inet(ls)->0.contains('/'),
    decreases i,
{
    if i > 0 {
        let d = ls.drop_first();
        assert(!carries_inet(ls[0]));
        assert forall|j: int| 0 <= j < i - 1 implies !carries_inet(#[trigger] d[j]) by {
            assert(d[j] == ls[j + 1]);
            assert(!carries_inet(ls[j + 1]));
        }
        lemma_ip_from_first_inet_line(d, i - 1);
    } else {
        crate::text::lemma_run_before_excludes(words(trim(ls[0]))[1], '/');
    }
}

/// Without a line that carries an address, there is none.
pub proof fn lemma_ip_without_inet_line(ls: Seq<Seq<char>>)
    requires
        forall|j: int| 0 <= j < ls.len() ==> !carries_inet(#[trigger] ls[j]),
    ensures
        first_inet(ls) is None,
    decreases ls.len(),
{
    if ls.len() > 0 {
        let d = ls.drop_first();
        assert(!carries_inet(ls[0]));
        assert forall|j: int| 0 <= j < d.len() implies !carries_inet(#[trigger] d[j]) by {
            assert(d[j] == ls[j + 1]);
            assert(!carries_inet(ls[j + 1]));
        }
        lemma_ip_without_inet_line(d);
    }
}

fn inet_in_range(s: &[char], a: usize, b: usize) -> (r: Option<String>)
    requires
        a <= b <= s@.len(),
    ensures
        match inet_address(s@.subrange(a as int, b as int)) {
            Some(v) => r matches Some(x) && x@ == v,
            None => r is None,
        },
{
    let (ta, tb) = trim_range(s, a, b);
    let ghost t = s@.subrange(ta as int, tb as int);
    let inet = chars_of("inet ");
    if !has_prefix(s, ta, tb, &inet) {
        return None;
    }
    let ws = word_ranges(s, ta, tb);
    if ws.len() < 2 {
        return None;
    }
    proof {
        lemma_range_at(s@, ws@, words(t), 1);
    }
    let (wa, wb) = ws[1];
    let k = find_char(s, wa, wb, '/');
    assert(s@.subrange(wa as int, wb as int).take(k - wa) =~= s@.subrange(wa as int, k as int));
    Some(string_of_range(s, wa, k))
}

/// The IPv4 address in the output of `ip -4 addr show <iface>`, or `--`.
pub fn ip_from_output(stdout: &str) -> (r: String)
    ensures
        r@ == or_dashes(first_inet(lines(stdout@))),
{
    let s = chars_of(stdout);
    let ls = line_ranges(&s);
    let ghost lv = lines(s@);
    let mut i: usize = 0;
    assert(lv.skip(0) =~= lv);
    while i < ls.len()
        invariant
            lv == lines(s@),
            s@ == stdout@,
            crate::text::ranges_within(s@, ls@),
            crate::text::range_views(s@, ls@) == lv,
            i <= ls@.len(),
            first_inet(lv) == first_inet(lv.skip(i as int)),
        decreases ls@.len() - i,
    {
        proof {
            lemma_range_at(s@, ls@, lv, i as int);
            assert(lv.skip(i as int)[0] == lv[i as int]);
            assert(lv.skip(i as int).drop_first() =~= lv.skip(i + 1));
        }
        let (a, b) = ls[i];
        if let Some(x) = inet_in_range(&s, a, b) {
            assert(lv.skip(i as int).len() > 0);
            assert(inet_address(lv.skip(i as int)[0]) == Some(x@));
            return x;
        }
        i = i + 1;
    }
    assert(lv.skip(ls@.len() as int) =~= Seq::<Seq<char>>::empty());
    String::from_str("--")
}


/// The link speed shown for an Ethernet interface, from the content of its
/// `speed` file: the trimmed value followed by ` Mbps`, or `--` where the
/// file could not be read, is empty or reads `-1`.
pub open spec fn speed_text(content: Option<Seq<char>>) -> Seq<char> {
    match content {
        Some(c) => {
            let t = trim(c);
            if t != "-1"@ && t.len() > 0 {
                t + " Mbps"@
            } else {
                "--"@
            }
        },
        None => "--"@,
    }
}

/// Every readable speed whose trimmed text is neither empty nor `-1` is
/// shown as that text followed by ` Mbps`; the others show `--`.
pub proof fn lemma_speed_shown(c: Seq<char>)
    ensures
        trim(c).len() > 0 && trim(c) != "-1"@ ==> speed_text(Some(c)) == trim(c) + " Mbps"@,
        trim(c).len() == 0 || trim(c) == "-1"@ ==> speed_text(Some(c)) == "--"@,
        speed_text(None) == "--"@,
{
}

/// The speed shown for an Ethernet interface whose `speed` file holds `content`.
pub fn eth_speed(content: Option<&str>) -> (r: String)
    ensures
        r@ == speed_text(match content {
            Some(c) => Some(c@),
            None => None,
        }),
        match content {
            Some(c) => {
                &&& trim(c@).len() > 0 && trim(c@) != "-1"@ ==> r@ == trim(c@) + " Mbps"@
                &&& trim(c@).len() == 0 || trim(c@) == "-1"@ ==> r@ == "--"@
            },
            None => r@ == "--"@,
        },
{
    proof {
        if let Some(c) = content {
            lemma_speed_shown(c@);
        }
    }
    match content {
        Some(c) => {
            let t = trimmed(c);
            let tc = chars_of(t.as_str());
            if !equals_str(&tc, "-1") && tc.len() > 0 {
                let mut r = t;
                r.append(" Mbps");
                r
            } else {
                String::from_str("--")
            }
        },
        None => String::from_str("--"),
    }
}

/// The value of a line of `iw dev <iface> link` that begins, once trimmed,
/// with `key` and has at least two words: its words after the first, joined
/// with single spaces.
pub open spec fn tagged_value(l: Seq<char>, key: Seq<char>) -> Option<Seq<char>> {
    let t = trim(l);
    if key.is_prefix_of(t) && words(t).len() >= 2 {
        Some(join_spaced(words(t).skip(1)))
    } else {
        None
    }
}

/// The value of the last line of `ls` that has one for `key`.
pub open spec fn last_tagged(ls: Seq<Seq<char>>, key: Seq<char>) -> Option<Seq<char>>
    decreases ls.len(),
{
    if ls.len() == 0 {
        None
    } else {
        match tagged_value(ls.last(), key) {
            Some(v) => Some(v),
            None => last_tagged(ls.drop_last(), key),
        }
    }
}

/// A line of `iw` output that gives a value for `key`: trimmed, it begins
/// with `key` and has at least two words.
pub open spec fn gives_value(l: Seq<char>, key: Seq<char>) -> bool {
    key.is_prefix_of(trim(l)) && words(trim(l)).len() >= 2
}

/// The value for `key` comes from the last line that gives one: its words
/// after the first, joined by single spaces; later lines without a value
/// leave it as it was.
pub proof fn lemma_last_line_value(ls: Seq<Seq<char>>, key: Seq<char>, i: int)
    requires
        0 <= i < ls.len(),
        gives_value(ls[i], key),
        forall|j: int| i < j < ls.len() ==> !gives_value(#[trigger] ls[j], key),
    ensures
        last_tagged(ls, key) == Some(join_spaced(words(trim(ls[i])).skip(1))),
    decreases ls.len(),
{
    if i < ls.len() - 1 {
        let d = ls.drop_last();
        assert(!gives_value(ls[ls.len() - 1], key));
        assert forall|j: int| i < j < d.len() implies !gives_value(#[trigger] d[j], key) by {
            assert(d[j] == ls[j]);
            assert(!gives_value(ls[j], key));
        }
        lemma_last_line_value(d, key, i);
    }
}

/// Without a line that gives a value for `key`, there is none.
pub proof fn lemma_no_line_value(ls: Seq<Seq<char>>, key: Seq<char>)
    requires
        forall|j: int| 0 <= j < ls.len() ==> !gives_value(#[trigger] ls[j], key),
    ensures
        last_tagged(ls, key) is None,
    decreases ls.len(),
{
    if ls.len() > 0 {
        let d = ls.drop_last();
        assert(!gives_value(ls[ls.len() - 1], key));
        assert forall|j: int| 0 <= j < d.len() implies !gives_value(#[trigger] d[j], key) by {
            assert(d[j] == ls[j]);
            assert(!gives_value(ls[j], key));
        }
        lemma_no_line_value(d, key);
    }
}

fn tagged_in_range(s: &[char], a: usize, b: usize, key: &[char]) -> (r: Option<String>)
    requires
        a <= b <= s@.len(),
    ensures
        match tagged_value(s@.subrange(a as int, b as int), key@) {
            Some(v) => r matches Some(x) && x@ == v,
            None => r is None,
        },
{
    let (ta, tb) = trim_range(s, a, b);
    if !has_prefix(s, ta, tb, key) {
        return None;
    }
    let ws = word_ranges(s, ta, tb);
    if ws.len() < 2 {
        return None;
    }
    Some(join_ranges(s, &ws, 1))
}

/// The signal strength and the frequency in the output of `iw dev <iface> link`:
/// the values of the last `signal:` and `freq:` lines, or `--`.
pub fn wifi_details(stdout: &str) -> (r: (String, String))
    ensures
        r.0@ == or_dashes(last_tagged(lines(stdout@), "signal:"@)),
        r.1@ == or_dashes(last_tagged(lines(stdout@), "freq:"@)),
{
    let s = chars_of(stdout);
    let ls = line_ranges(&s);
    let ghost lv = lines(s@);
    let sig_key = chars_of("signal:");
    let freq_key = chars_of("freq:");
    let mut signal = String::from_str("--");
    let mut freq = String::from_str("--");
    let mut i: usize = 0;
    assert(lv.take(0) =~= Seq::<Seq<char>>::empty());
    while i < ls.len()
        invariant
            lv == lines(s@),
            s@ == stdout@,
            sig_key@ == "signal:"@,
            freq_key@ == "freq:"@,
            crate::text::ranges_within(s@, ls@),
            crate::text::range_views(s@, ls@) == lv,
            i <= ls@.len(),
            signal@ == or_dashes(last_tagged(lv.take(i as int), "signal:"@)),
            freq@ == or_dashes(last_tagged(lv.take(i as int), "freq:"@)),
        decreases ls@.len() - i,
    {
        proof {
            lemma_range_at(s@, ls@, lv, i as int);
            assert(lv.take(i + 1).drop_last() =~= lv.take(i as int));
            assert(lv.take(i + 1).last() == lv[i as int]);
        }
        let (a, b) = ls[i];
        let (ta, tb) = trim_range(&s, a, b);
        if has_prefix(&s, ta, tb, &sig_key) {
            proof {
                let t = s@.subrange(ta as int, tb as int);
                reveal_strlit("signal:");
                reveal_strlit("freq:");
                assert("signal:"@[0] == 's');
                assert("freq:"@[0] == 'f');
                assert(t.subrange(0, sig_key@.len() as int)[0] == t[0]);
                assert(t[0] == 's');
                if "freq:"@.is_prefix_of(t) {
                    assert(t.subrange(0, 5)[0] == t[0]);
                }
            }
            if let Some(v) = tagged_in_range(&s, a, b, &sig_key) {
                signal = v;
            }
        } else if let Some(v) = tagged_in_range(&s, a, b, &freq_key) {
            freq = v;
        }
        i = i + 1;
    }
    assert(lv.take(ls@.len() as int) =~= lv);
    (signal, freq)
}

/// The key management of the first line of `ls` that begins with
/// `key_mgmt=`: that line with every `key_mgmt=` taken out.
pub open spec fn first_key_mgmt(ls: Seq<Seq<char>>) -> Option<Seq<char>>
    decreases ls.len(),
{
    if ls.len() == 0 {
        None
    } else if "key_mgmt="@.is_prefix_of(ls[0]) {
        Some(remove_all(ls[0], "key_mgmt="@))
    } else {
        first_key_mgmt(ls.drop_first())
    }
}

/// The security comes from the first line that begins (untrimmed) with
/// `key_mgmt=`: that line with every `key_mgmt=` taken out; when the rest of
/// the line holds no further `key_mgmt=`, that is the rest of the line.
pub proof fn lemma_security_from_first_key_line(ls: Seq<Seq<char>>, i: int)
    requires
        0 <= i < ls.len(),
        "key_mgmt="@.is_prefix_of(ls[i]),
        forall|j: int| 0 <= j < i ==> !"key_mgmt="@.is_prefix_of(#[trigger] ls[j]),
    ensures
        first_key_mgmt(ls) == Some(remove_all(ls[i], "key_mgmt="@)),
        (forall|k: int|
            0 <= k <= ls[i].len() - "key_mgmt="@.len() ==> !"key_mgmt="@.is_prefix_of(
                #[trigger] ls[i].skip("key_mgmt="@.len() + k),
            )) ==> first_key_mgmt(ls) == Some(ls[i].skip("key_mgmt="@.len() as int)),
    decreases i,
{
    if i > 0 {
        let d = ls.drop_first();
        assert(!"key_mgmt="@.is_prefix_of(ls[0]));
        assert forall|j: int| 0 <= j < i - 1 implies !"key_mgmt="@.is_prefix_of(#[trigger] d[j]) by {
            assert(d[j] == ls[j + 1]);
            assert(!"key_mgmt="@.is_prefix_of(ls[j + 1]));
        }
        lemma_security_from_first_key_line(d, i - 1);
    } else {
        reveal_strlit("key_mgmt=");
        let p = "key_mgmt="@;
        let rest = ls[0].skip(p.len() as int);
        if forall|k: int|
            0 <= k <= ls[0].len() - p.len() ==> !p.is_prefix_of(#[trigger] ls[0].skip(p.len() + k)) {
            assert(remove_all(ls[0], p) == remove_all(rest, p));
            assert forall|k: int| 0 <= k <= rest.len() - p.len() implies !p.is_prefix_of(
                #[trigger] rest.skip(k),
            ) by {
                assert(rest.skip(k) =~= ls[0].skip(p.len() + k));
            }
            crate::text::lemma_remove_all_absent(rest, p);
        }
    }
}

/// The security of the Wi-Fi link in the output of `wpa_cli -i <iface> status`, or `--`.
pub fn wifi_security(stdout: &str) -> (r: String)
    ensures
        r@ == or_dashes(first_key_mgmt(lines(stdout@))),
{
    let s = chars_of(stdout);
    let ls = line_ranges(&s);
    let ghost lv = lines(s@);
    let key = chars_of("key_mgmt=");
    proof {
        reveal_strlit("key_mgmt=");
    }
    let mut i: usize = 0;
    assert(lv.skip(0) =~= lv);
    while i < ls.len()
        invariant
            lv == lines(s@),
            s@ == stdout@,
            key@ == "key_mgmt="@,
            key@.len() > 0,
            crate::text::ranges_within(s@, ls@),
            crate::text::range_views(s@, ls@) == lv,
            i <= ls@.len(),
            first_key_mgmt(lv) == first_key_mgmt(lv.skip(i as int)),
        decreases ls@.len() - i,
    {
        proof {
            lemma_range_at(s@, ls@, lv, i as int);
            assert(lv.skip(i as int)[0] == lv[i as int]);
            assert(lv.skip(i as int).drop_first() =~= lv.skip(i + 1));
        }
        let (a, b) = ls[i];
        if has_prefix(&s, a, b, &key) {
            let r = remove_all_range(&s, a, b, &key);
            assert(first_key_mgmt(lv.skip(i as int)) == Some(r@));
            return r;
        }
        i = i + 1;
    }
    assert(lv.skip(ls@.len() as int) =~= Seq::<Seq<char>>::empty());
    String::from_str("--")
}


/// The first interface of `es` whose status is `UP`.
pub open spec fn first_up(es: Seq<EthInterface>) -> Option<EthInterface>
    decreases es.len(),
{
    if es.len() == 0 {
        None
    } else if es[0].status@ == "UP"@ {
        Some(es[0])
    } else {
        first_up(es.drop_first())
    }
}

/// The interface whose details the dashboard shows in its summary: the first
/// one that is up, else the first one.
pub open spec fn primary_of(es: Seq<EthInterface>) -> Option<EthInterface> {
    match first_up(es) {
        Some(e) => Some(e),
        None => if es.len() > 0 {
            Some(es[0])
        } else {
            None
        },
    }
}

/// The summary shows the interface of smallest index whose status is `UP`.
pub proof fn lemma_primary_is_first_up(es: Seq<EthInterface>, i: int)
    requires
        0 <= i < es.len(),
        es[i].status@ == "UP"@,
        forall|j: int| 0 <= j < i ==> es[j].status@ != "UP"@,
    ensures
        primary_of(es) == Some(es[i]),
        first_up(es) == Some(es[i]),
    decreases i,
{
    if i > 0 {
        lemma_primary_is_first_up(es.drop_first(), i - 1);
    }
}

/// When no interface is `UP`, the summary shows the first one; when there
/// is none, it shows nothing.
pub proof fn lemma_primary_without_up(es: Seq<EthInterface>)
    requires
        forall|j: int| 0 <= j < es.len() ==> es[j].status@ != "UP"@,
    ensures
        es.len() > 0 ==> primary_of(es) == Some(es[0]),
        es.len() == 0 ==> primary_of(es) is None,
        first_up(es) is None,
    decreases es.len(),
{
    if es.len() > 0 {
        lemma_primary_without_up(es.drop_first());
    }
}

fn copy_eth(e: &EthInterface) -> (r: EthInterface)
    ensures
        r == *e,
{
    EthInterface {
        name: e.name.clone(),
        status: e.status.clone(),
        ip: e.ip.clone(),
        speed: e.speed.clone(),
    }
}

/// The primary Ethernet interface of `ifaces`, or `eth0`, `DOWN`, `--`, `--`
/// when there is none.
pub fn primary_eth(ifaces: &Vec<EthInterface>) -> (r: EthInterface)
    ensures
        match primary_of(ifaces@) {
            Some(e) => r == e,
            None => r.name@ == "eth0"@ && r.status@ == "DOWN"@ && r.ip@ == "--"@ && r.speed@
                == "--"@,
        },
        forall|i: int|
            0 <= i < ifaces@.len() && ifaces@[i].status@ == "UP"@ && (forall|j: int|
                0 <= j < i ==> ifaces@[j].status@ != "UP"@) ==> r == #[trigger] ifaces@[i],
        (forall|j: int| 0 <= j < ifaces@.len() ==> ifaces@[j].status@ != "UP"@) && ifaces@.len()
            > 0 ==> r == ifaces@[0],
{
    proof {
        assert forall|i: int|
            0 <= i < ifaces@.len() && ifaces@[i].status@ == "UP"@ && (forall|j: int|
                0 <= j < i ==> ifaces@[j].status@ != "UP"@) implies primary_of(ifaces@) == Some(
            #[trigger] ifaces@[i],
        ) by {
            lemma_primary_is_first_up(ifaces@, i);
        }
        if forall|j: int| 0 <= j < ifaces@.len() ==> ifaces@[j].status@ != "UP"@ {
            lemma_primary_without_up(ifaces@);
        }
    }
    let mut i: usize = 0;
    assert(ifaces@.skip(0) =~= ifaces@);
    while i < ifaces.len()
        invariant
            i <= ifaces@.len(),
            first_up(ifaces@) == first_up(ifaces@.skip(i as int)),
            forall|k: int|
                0 <= k < ifaces@.len() && ifaces@[k].status@ == "UP"@ && (forall|j: int|
                    0 <= j < k ==> ifaces@[j].status@ != "UP"@) ==> primary_of(ifaces@) == Some(
                    #[trigger] ifaces@[k],
                ),
        decreases ifaces@.len() - i,
    {
        assert(ifaces@.skip(i as int)[0] == ifaces@[i as int]);
        assert(ifaces@.skip(i as int).drop_first() =~= ifaces@.skip(i + 1));
        let st = chars_of(ifaces[i].status.as_str());
        if equals_str(&st, "UP") {
            return copy_eth(&ifaces[i]);
        }
        i = i + 1;
    }
    assert(ifaces@.skip(ifaces@.len() as int) =~= Seq::<EthInterface>::empty());
    if ifaces.len() > 0 {
        copy_eth(&ifaces[0])
    } else {
        EthInterface {
            name: String::from_str("eth0"),
            status: String::from_str("DOWN"),
            ip: String::from_str("--"),
            speed: String::from_str("--"),
        }
    }
}

/// The Wi-Fi interface that was found, with what its own files tell.
#[derive(Clone, Debug)]
pub struct WifiProbe {
    pub name: String,
    /// Its status as `net_status` gives it.
    pub status: String,
    /// Whether `is_interface_disabled` holds of it.
    pub disabled: bool,
}

/// What the tools tell of a Wi-Fi link that is up.
#[derive(Clone, Debug)]
pub struct WifiLink {
    pub ip: String,
    pub signal: String,
    pub freq: String,
    pub sec: String,
}

/// The Wi-Fi part of a sample: the link, if it is up, and the flat fields
/// that the dashboard shows.
#[derive(Clone, Debug)]
pub struct WifiReport {
    pub wifi: Option<WifiInfo>,
    pub status: String,
    pub ip: String,
    pub signal: String,
    pub freq: String,
    pub sec: String,
}

/// A Wi-Fi link counts as up when the interface is not disabled and its status is `UP`.
pub open spec fn link_up(status: Seq<char>, disabled: bool) -> bool {
    !disabled && status == "UP"@
}

/// Whether the Wi-Fi link of an interface with this status counts as up;
/// only then are its address, signal and security asked for.
pub fn wifi_link_up(status: &str, disabled: bool) -> (r: bool)
    ensures
        r == link_up(status@, disabled),
        r == (!disabled && status@ == "UP"@),
{
    if disabled {
        return false;
    }
    let st = chars_of(status);
    equals_str(&st, "UP")
}

/// The Wi-Fi part of a sample, from the interface found (if any) and, when
/// its link is up, what the tools told of the link.
pub fn wifi_report(probe: Option<WifiProbe>, link: Option<WifiLink>) -> (r: WifiReport)
    requires
        probe matches Some(p) && link_up(p.status@, p.disabled) ==> link is Some,
    ensures
        r.wifi is Some <==> (probe matches Some(p) && link_up(p.status@, p.disabled)),
        r.wifi is Some <==> (probe matches Some(p) && !p.disabled && p.status@ == "UP"@),
        match probe {
            Some(p) => if link_up(p.status@, p.disabled) {
                let l = link->0;
                &&& r.wifi matches Some(w) && w.name@ == p.name@ && w.status@ == p.status@
                    && w.ip@ == l.ip@ && w.signal@ == l.signal@ && w.freq@ == l.freq@
                    && w.sec@ == l.sec@
                &&& r.status@ == p.status@
                &&& r.ip@ == l.ip@
                &&& r.signal@ == l.signal@
                &&& r.freq@ == l.freq@
                &&& r.sec@ == l.sec@
            } else {
                &&& r.status@ == (if p.disabled {
                    "DISABLED"@
                } else {
                    p.status@
                })
                &&& r.ip@ == "--"@ && r.signal@ == "--"@ && r.freq@ == "--"@ && r.sec@ == "--"@
            },
            None => {
                &&& r.status@ == "DISABLED"@
                &&& r.ip@ == "--"@ && r.signal@ == "--"@ && r.freq@ == "--"@ && r.sec@ == "--"@
            },
        },
{
    match probe {
        Some(p) => {
            if wifi_link_up(p.status.as_str(), p.disabled) {
                let l = link.unwrap();
                let info = WifiInfo {
                    name: p.name,
                    status: p.status.clone(),
                    ip: l.ip.clone(),
                    signal: l.signal.clone(),
                    freq: l.freq.clone(),
                    sec: l.sec.clone(),
                };
                WifiReport {
                    wifi: Some(info),
                    status: p.status,
                    ip: l.ip,
                    signal: l.signal,
                    freq: l.freq,
                    sec: l.sec,
                }
            } else {
                let status = if p.disabled {
                    String::from_str("DISABLED")
                } else {
                    p.status
                };
                WifiReport {
                    wifi: None,
                    status,
                    ip: String::from_str("--"),
                    signal: String::from_str("--"),
                    freq: String::from_str("--"),
                    sec: String::from_str("--"),
                }
            }
        },
        None => WifiReport {
            wifi: None,
            status: String::from_str("DISABLED"),
            ip: String::from_str("--"),
            signal: String::from_str("--"),
            freq: String::from_str("--"),
            sec: String::from_str("--"),
        },
    }
}

} // verus!
