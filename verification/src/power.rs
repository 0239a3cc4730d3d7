//! The PMIC power rails of the Raspberry Pi 5 and the readings of
//! `vcgencmd pmic_read_adc`.
use vstd::prelude::*;
use crate::text::{
    chars_of, find_char, lemma_range_at, line_ranges, lines, parse_range, parse_u32, run_before,
    trim, trim_range,
};

verus! {

/// A supply rail: its PMIC name, a short and a long description, and the ADC
/// channels of its current and of its voltage.
#[derive(Clone, Debug)]
pub struct PowerRail {
    pub rail: String,
    pub name: String,
    pub description: String,
    pub current_channel: u32,
    pub voltage_channel: u32,
}

/// The characters and channels of a rail.
pub open spec fn rail_view(r: PowerRail) -> (Seq<char>, Seq<char>, Seq<char>, u32, u32) {
    (r.rail@, r.name@, r.description@, r.current_channel, r.voltage_channel)
}

/// The rails that are reported, in the order they are reported.
pub open spec fn rail_table() -> Seq<(Seq<char>, Seq<char>, Seq<char>, u32, u32)> {
    seq![
        ("VDD_CORE"@, "CPU & GPU Cores"@, "Main SoC processor and GPU graphics core power"@, 7u32, 15u32),
        ("3V3_SYS"@, "GPIO & 3.3V System"@, "40-pin GPIO header and primary 3.3V peripherals"@, 1u32, 9u32),
        ("DDR_VDD2"@, "RAM Core (DDR_VDD2)"@, "LPDDR4X SDRAM core voltage"@, 3u32, 11u32),
        ("DDR_VDDQ"@, "RAM I/O (DDR_VDDQ)"@, "LPDDR4X SDRAM data line I/O voltage"@, 4u32, 12u32),
        ("1V1_SYS"@, "PCIe & USB (1.1V)"@, "PCI Express and USB controller logic power"@, 5u32, 13u32),
        ("1V8_SYS"@, "1.8V System & I/O"@, "General SoC internal 1.8V logic voltage"@, 2u32, 10u32),
        ("0V8_SW"@, "RP1 I/O Controller"@, "RP1 southbridge peripheral controller core power"@, 6u32, 14u32),
        ("0V8_AON"@, "Standby / Always-On"@, "Continuous low-power always-on circuitry"@, 16u32, 19u32),
        ("3V7_WL_SW"@, "Wi-Fi & Bluetooth"@, "Wireless module power supply"@, 0u32, 8u32),
        ("HDMI"@, "HDMI Display"@, "HDMI video output and display circuitry"@, 22u32, 23u32),
        ("3V3_DAC"@, "Audio DAC"@, "Analog audio digital-to-analog converter"@, 17u32, 20u32),
        ("3V3_ADC"@, "Analog ADC"@, "Analog-to-digital converter circuitry"@, 18u32, 21u32),
    ]
}

/// The ADC channels that `vcgencmd pmic_read_adc` reports as currents
/// (`<RAIL>_A current(n)`).
pub open spec fn current_adc_channel(ch: u32) -> bool {
    ch <= 7 || (16 <= ch <= 18) || ch == 22
}

/// The voltage channel (`<RAIL>_V volt(n)`) that the PMIC pairs with the
/// current channel `ch` of the same rail.
pub open spec fn paired_voltage_channel(ch: u32) -> int {
    if ch <= 7 {
        ch + 8
    } else if ch <= 18 {
        ch + 3
    } else {
        ch + 1
    }
}

/// The rail that the PMIC names on its current channel `ch`.
pub open spec fn current_channel_rail(ch: u32) -> Seq<char> {
    if ch == 0 {
        "3V7_WL_SW"@
    } else if ch == 1 {
        "3V3_SYS"@
    } else if ch == 2 {
        "1V8_SYS"@
    } else if ch == 3 {
        "DDR_VDD2"@
    } else if ch == 4 {
        "DDR_VDDQ"@
    } else if ch == 5 {
        "1V1_SYS"@
    } else if ch == 6 {
        "0V8_SW"@
    } else if ch == 7 {
        "VDD_CORE"@
    } else if ch == 16 {
        "0V8_AON"@
    } else if ch == 17 {
        "3V3_DAC"@
    } else if ch == 18 {
        "3V3_ADC"@
    } else {
        "HDMI"@
    }
}

/// Every reported rail reads its current on a current channel of the PMIC
/// that carries the rail's own name, and its voltage on the voltage channel
/// paired with it; no two rails share a channel.
pub proof fn lemma_rail_channels(i: int, j: int)
    requires
        0 <= i < rail_table().len(),
        0 <= j < rail_table().len(),
    ensures
        current_adc_channel(rail_table()[i].3),
        rail_table()[i].4 == paired_voltage_channel(rail_table()[i].3),
        rail_table()[i].0 == current_channel_rail(rail_table()[i].3),
        i != j ==> rail_table()[i].3 != rail_table()[j].3 && rail_table()[i].4 != rail_table()[j].4,
{
}

fn rail(id: &str, name: &str, description: &str, current_channel: u32, voltage_channel: u32) -> (r:
    PowerRail)
    ensures
        rail_view(r) == (id@, name@, description@, current_channel, voltage_channel),
{
    PowerRail {
        rail: String::from_str(id),
        name: String::from_str(name),
        description: String::from_str(description),
        current_channel,
        voltage_channel,
    }
}

/// The rails that are reported, in order.
pub fn power_rails() -> (r: Vec<PowerRail>)
    ensures
        r@.map_values(|p: PowerRail| rail_view(p)) == rail_table(),
{
    let mut r: Vec<PowerRail> = Vec::new();
    r.push(rail("VDD_CORE", "CPU & GPU Cores", "Main SoC processor and GPU graphics core power", 7, 15));
    r.push(rail("3V3_SYS", "GPIO & 3.3V System", "40-pin GPIO header and primary 3.3V peripherals", 1, 9));
    r.push(rail("DDR_VDD2", "RAM Core (DDR_VDD2)", "LPDDR4X SDRAM core voltage", 3, 11));
    r.push(rail("DDR_VDDQ", "RAM I/O (DDR_VDDQ)", "LPDDR4X SDRAM data line I/O voltage", 4, 12));
    r.push(rail("1V1_SYS", "PCIe & USB (1.1V)", "PCI Express and USB controller logic power", 5, 13));
    r.push(rail("1V8_SYS", "1.8V System & I/O", "General SoC internal 1.8V logic voltage", 2, 10));
    r.push(rail("0V8_SW", "RP1 I/O Controller", "RP1 southbridge peripheral controller core power", 6, 14));
    r.push(rail("0V8_AON", "Standby / Always-On", "Continuous low-power always-on circuitry", 16, 19));
    r.push(rail("3V7_WL_SW", "Wi-Fi & Bluetooth", "Wireless module power supply", 0, 8));
    r.push(rail("HDMI", "HDMI Display", "HDMI video output and display circuitry", 22, 23));
    r.push(rail("3V3_DAC", "Audio DAC", "Analog audio digital-to-analog converter", 17, 20));
    r.push(rail("3V3_ADC", "Analog ADC", "Analog-to-digital converter circuitry", 18, 21));
    assert(r@.map_values(|p: PowerRail| rail_view(p)) =~= rail_table());
    r
}

/// The rails of `table` whose current and voltage channels both have a reading.
pub open spec fn measured(
    table: Seq<(Seq<char>, Seq<char>, Seq<char>, u32, u32)>,
    available: Seq<u32>,
) -> Seq<(Seq<char>, Seq<char>, Seq<char>, u32, u32)>
    decreases table.len(),
{
    if table.len() == 0 {
        seq![]
    } else {
        let prev = measured(table.drop_last(), available);
        let t = table.last();
        if available.contains(t.3) && available.contains(t.4) {
            prev.push(t)
        } else {
            prev
        }
    }
}

/// A rail is reported exactly when both its current and voltage channels
/// gave a reading, and every reported rail is a rail of the table.
pub proof fn lemma_measured_members(
    table: Seq<(Seq<char>, Seq<char>, Seq<char>, u32, u32)>,
    available: Seq<u32>,
)
    ensures
        forall|i: int|
            0 <= i < table.len() && available.contains(table[i].3) && available.contains(
                table[i].4,
            ) ==> measured(table, available).contains(#[trigger] table[i]),
        forall|k: int|
            0 <= k < measured(table, available).len() ==> table.contains(
                #[trigger] measured(table, available)[k],
            ) && available.contains(measured(table, available)[k].3) && available.contains(
                measured(table, available)[k].4,
            ),
    decreases table.len(),
{
    if table.len() > 0 {
        let d = table.drop_last();
        lemma_measured_members(d, available);
        let m = measured(d, available);
        let t = table.last();
        assert forall|i: int|
            0 <= i < table.len() && available.contains(table[i].3) && available.contains(
                table[i].4,
            ) implies measured(table, available).contains(#[trigger] table[i]) by {
            if i < table.len() - 1 {
                assert(d[i] == table[i]);
                assert(m.contains(d[i]));
                let k = choose|k: int| 0 <= k < m.len() && m[k] == d[i];
                if available.contains(t.3) && available.contains(t.4) {
                    assert(measured(table, available)[k] == m[k]);
                }
            } else {
                assert(measured(table, available) == m.push(t));
                assert(measured(table, available)[m.len() as int] == table[i]);
            }
        }
        assert forall|k: int| 0 <= k < measured(table, available).len() implies table.contains(
            #[trigger] measured(table, available)[k],
        ) && available.contains(measured(table, available)[k].3) && available.contains(
            measured(table, available)[k].4,
        ) by {
            if k < m.len() {
                assert(measured(table, available)[k] == m[k]);
                assert(d.contains(m[k]));
                let j = choose|j: int| 0 <= j < d.len() && d[j] == m[k];
                assert(table[j] == d[j]);
            } else {
                assert(measured(table, available)[k] == t);
                assert(table[table.len() - 1] == t);
            }
        }
    }
}

fn has_channel(available: &Vec<u32>, ch: u32) -> (r: bool)
    ensures
        r == available@.contains(ch),
{
    let mut i: usize = 0;
    while i < available.len()
        invariant
            i <= available@.len(),
            forall|k: int| 0 <= k < i ==> available@[k] != ch,
        decreases available@.len() - i,
    {
        if available[i] == ch {
            return true;
        }
        i = i + 1;
    }
    false
}

/// The rails, in order, whose current and voltage channels are both among
/// `available`, the channels that gave a reading.
pub fn measured_rails(available: &Vec<u32>) -> (r: Vec<PowerRail>)
    ensures
        r@.map_values(|p: PowerRail| rail_view(p)) == measured(rail_table(), available@),
{
    let all = power_rails();
    let ghost table = rail_table();
    let mut out: Vec<PowerRail> = Vec::new();
    let mut i: usize = 0;
    assert(table.take(0) =~= Seq::<(Seq<char>, Seq<char>, Seq<char>, u32, u32)>::empty());
    assert(out@.map_values(|p: PowerRail| rail_view(p)) =~= measured(table.take(0), available@));
    while i < all.len()
        invariant
            table == rail_table(),
            all@.map_values(|p: PowerRail| rail_view(p)) == table,
            i <= all@.len(),
            out@.map_values(|p: PowerRail| rail_view(p)) == measured(table.take(i as int), available@),
        decreases all@.len() - i,
    {
        assert(table.take(i + 1).drop_last() =~= table.take(i as int));
        assert(table.take(i + 1).last() == table[i as int]);
        assert(table[i as int] == rail_view(all@[i as int]));
        let p = &all[i];
        if has_channel(available, p.current_channel) && has_channel(available, p.voltage_channel) {
            let c = PowerRail {
                rail: p.rail.clone(),
                name: p.name.clone(),
                description: p.description.clone(),
                current_channel: p.current_channel,
                voltage_channel: p.voltage_channel,
            };
            let ghost before = out@;
            out.push(c);
            assert(out@.map_values(|p: PowerRail| rail_view(p)) =~= before.map_values(
                |p: PowerRail| rail_view(p),
            ).push(rail_view(c)));
        }
        i = i + 1;
    }
    assert(table.take(all@.len() as int) =~= table);
    out
}

/// A character kept of a reading's value: an ASCII digit, `.` or `-`.
pub open spec fn numeric_char(c: char) -> bool {
    (48 <= c as u32 <= 57) || c == '.' || c == '-'
}

/// The characters of `s` that `numeric_char` keeps, in order.
pub open spec fn numeric_chars(s: Seq<char>) -> Seq<char>
    decreases s.len(),
{
    if s.len() == 0 {
        seq![]
    } else if numeric_char(s.last()) {
        numeric_chars(s.drop_last()).push(s.last())
    } else {
        numeric_chars(s.drop_last())
    }
}

/// The reading on a line of `vcgencmd pmic_read_adc`: the line must have a
/// `(`, a `)` and a `=`, the first of each in that order; the channel is the
/// trimmed text between the brackets as a `u32`, and the value is what
/// `numeric_chars` keeps of the text after the `=`.
pub open spec fn pmic_reading(l: Seq<char>) -> Option<(nat, Seq<char>)> {
    let o = run_before(l, '(');
    let c = run_before(l, ')');
    let e = run_before(l, '=');
    if o < l.len() && c < l.len() && e < l.len() && o < c && c < e {
        match parse_u32(trim(l.subrange(o + 1int, c as int))) {
            Some(ch) => Some((ch, numeric_chars(l.skip(e + 1int)))),
            None => None,
        }
    } else {
        None
    }
}

/// A line `p(x)q=v` whose first `(`, `)` and `=` are the ones shown gives
/// the channel `x` (trimmed, as a `u32`) with the digits, dots and minus
/// signs of `v`, in order; a channel that is not a `u32` gives no reading.
pub proof fn lemma_pmic_line(p: Seq<char>, x: Seq<char>, q: Seq<char>, v: Seq<char>)
    requires
        !p.contains('(') && !p.contains(')') && !p.contains('='),
        !x.contains(')') && !x.contains('='),
        !q.contains('='),
    ensures
        pmic_reading(p + seq!['('] + x + seq![')'] + q + seq!['='] + v) == match parse_u32(
            trim(x),
        ) {
            Some(ch) => Some((ch, numeric_chars(v))),
            None => None,
        },
{
    let l = p + seq!['('] + x + seq![')'] + q + seq!['='] + v;
    let o = p.len() as int;
    let c = o + 1 + x.len();
    let e = c + 1 + q.len();
    assert(l[o] == '(' && l[c] == ')' && l[e] == '=');
    assert forall|j: int| 0 <= j < o implies l[j] != '(' by {
        assert(l[j] == p[j]);
    }
    assert forall|j: int| 0 <= j < c implies l[j] != ')' by {
        if j < o {
            assert(l[j] == p[j]);
        } else if j > o {
            assert(l[j] == x[j - o - 1]);
        }
    }
    assert forall|j: int| 0 <= j < e implies l[j] != '=' by {
        if j < o {
            assert(l[j] == p[j]);
        } else if o < j < c {
            assert(l[j] == x[j - o - 1]);
        } else if j > c {
            assert(l[j] == q[j - c - 1]);
        }
    }
    crate::text::lemma_run_before_is_first(l, '(', o);
    crate::text::lemma_run_before_is_first(l, ')', c);
    crate::text::lemma_run_before_is_first(l, '=', e);
    assert(l.subrange(o + 1, c) =~= x);
    assert(l.skip(e + 1) =~= v);
}

/// A character is kept in a reading's value exactly when it is an ASCII
/// digit, `.` or `-`, and the kept ones stay in order.
pub proof fn lemma_numeric_chars(s: Seq<char>)
    ensures
        numeric_chars(s) == s.filter(|c: char| ('0' as u32 <= c as u32 <= '9' as u32) || c == '.'
            || c == '-'),
    decreases s.len(),
{
    reveal_with_fuel(Seq::filter, 1);
    if s.len() > 0 {
        lemma_numeric_chars(s.drop_last());
        assert(('0' as u32) == 48 && ('9' as u32) == 57);
    }
}

/// The readings on the lines `ls`, in order.
pub open spec fn pmic_readings(ls: Seq<Seq<char>>) -> Seq<(nat, Seq<char>)>
    decreases ls.len(),
{
    if ls.len() == 0 {
        seq![]
    } else {
        match pmic_reading(ls.last()) {
            Some(x) => pmic_readings(ls.drop_last()).push(x),
            None => pmic_readings(ls.drop_last()),
        }
    }
}

fn numeric_in(s: &[char], a: usize, b: usize) -> (r: String)
    requires
        a <= b <= s@.len(),
    ensures
        r@ == numeric_chars(s@.subrange(a as int, b as int)),
{
    let mut r = String::new();
    let mut i = a;
    assert(s@.subrange(a as int, a as int) =~= Seq::<char>::empty());
    while i < b
        invariant
            a <= i <= b <= s@.len(),
            r@ == numeric_chars(s@.subrange(a as int, i as int)),
        decreases b - i,
    {
        let c = s[i];
        assert(s@.subrange(a as int, i + 1).drop_last() =~= s@.subrange(a as int, i as int));
        assert(s@.subrange(a as int, i + 1).last() == c);
        let n = c as u32;
        if (48 <= n && n <= 57) || c == '.' || c == '-' {
            r.push(c);
        }
        i = i + 1;
    }
    r
}

fn reading_in(s: &[char], a: usize, b: usize) -> (r: Option<(u32, String)>)
    requires
        a <= b <= s@.len(),
    ensures
        match pmic_reading(s@.subrange(a as int, b as int)) {
            Some(x) => r matches Some(y) && y.0 == x.0 && y.1@ == x.1,
            None => r is None,
        },
{
    let ghost l = s@.subrange(a as int, b as int);
    let o = find_char(s, a, b, '(');
    let c = find_char(s, a, b, ')');
    let e = find_char(s, a, b, '=');
    if !(o < b && c < b && e < b && o < c && c < e) {
        return None;
    }
    assert(l.subrange(o - a + 1, c - a) =~= s@.subrange(o + 1, c as int));
    assert(l.skip(e - a + 1) =~= s@.subrange(e + 1, b as int));
    let (ta, tb) = trim_range(s, o + 1, c);
    match parse_range(s, ta, tb, 10, 0xffff_ffff) {
        Some(ch) => Some((ch as u32, numeric_in(s, e + 1, b))),
        None => None,
    }
}

/// The channel readings in the output of `vcgencmd pmic_read_adc`, in
/// order: each channel with the text of its value.
pub fn pmic_channels(stdout: &str) -> (r: Vec<(u32, String)>)
    ensures
        r@.len() == pmic_readings(lines(stdout@)).len(),
        forall|i: int|
            0 <= i < r@.len() ==> r@[i].0 == #[trigger] pmic_readings(lines(stdout@))[i].0
                && r@[i].1@ == pmic_readings(lines(stdout@))[i].1,
{
    let s = chars_of(stdout);
    let ls = line_ranges(&s);
    let ghost lv = lines(s@);
    let mut out: Vec<(u32, String)> = Vec::new();
    let mut i: usize = 0;
    assert(lv.take(0) =~= Seq::<Seq<char>>::empty());
    while i < ls.len()
        invariant
            lv == lines(s@),
            s@ == stdout@,
            crate::text::ranges_within(s@, ls@),
            crate::text::range_views(s@, ls@) == lv,
            i <= ls@.len(),
            out@.len() == pmic_readings(lv.take(i as int)).len(),
            forall|k: int|
                0 <= k < out@.len() ==> out@[k].0 == #[trigger] pmic_readings(lv.take(i as int))[k].0
                    && out@[k].1@ == pmic_readings(lv.take(i as int))[k].1,
        decreases ls@.len() - i,
    {
        proof {
            lemma_range_at(s@, ls@, lv, i as int);
            assert(lv.take(i + 1).drop_last() =~= lv.take(i as int));
            assert(lv.take(i + 1).last() == lv[i as int]);
        }
        let (a, b) = ls[i];
        if let Some(x) = reading_in(&s, a, b) {
            out.push(x);
        }
        i = i + 1;
    }
    assert(lv.take(ls@.len() as int) =~= lv);
    out
}

} // verus!
