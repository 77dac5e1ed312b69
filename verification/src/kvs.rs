//! The storage engine.

use vstd::prelude::*;

use crate::codec::Command;
use crate::codec::CommandView;
use crate::codec::encode_command;
use crate::codec::lemma_parse_command_canonical;
use crate::codec::lemma_encode_command_recognized;
use crate::codec::lemma_records_append;
use crate::codec::parse_command;
use crate::codec::parse_record;
use crate::codec::records_from;
use crate::codec::records;
use crate::codec::render_command;
use crate::error::KvError;

verus! {

/// One segment file: the decimal generation number names the file
/// `<gen>.log`, and `data` is the file's text.
pub struct Segment {
    pub gen: u64,
    pub data: Vec<char>,
}

/// The decimal digits of `n`, most significant first.
pub open spec fn decimal(n: int) -> Seq<char>
    decreases n,
{
    if n < 0 {
        Seq::empty()
    } else if n < 10 {
        seq![crate::codec::hex_digit(n)]
    } else {
        decimal(n / 10) + seq![crate::codec::hex_digit(n % 10)]
    }
}

/// The file name of the segment of generation `gen`: its decimal digits
/// followed by `.log`.
pub open spec fn log_name(gen: u64) -> Seq<char> {
    decimal(gen as int) + seq!['.', 'l', 'o', 'g']
}

/// The decimal digits of `n`, most significant first.
fn decimal_digits(n: u64) -> (r: Vec<char>)
    ensures
        r@ == decimal(n as int),
{
    let mut out: Vec<char> = Vec::new();
    let mut m = n;
    let d0 = crate::codec::hex_digit_exec((m % 10) as u32);
    out.push(d0);
    proof {
        assert(out@ =~= seq![crate::codec::hex_digit(n as int % 10)]);
        if m / 10 == 0 {
            assert(decimal(n as int) == out@);
        } else {
            assert(n as int >= 10);
            assert(decimal(n as int) == decimal(n as int / 10) + out@);
        }
    }
    m = m / 10;
    while m > 0
        invariant
            m > 0 ==> decimal(n as int) == decimal(m as int) + out@,
            m == 0 ==> decimal(n as int) == out@,
        decreases m,
    {
        let ghost out0 = out@;
        let ghost m0 = m as int;
        let d = crate::codec::hex_digit_exec((m % 10) as u32);
        out.insert(0, d);
        proof {
            assert(out@ =~= seq![crate::codec::hex_digit(m0 % 10)] + out0);
            if m0 < 10 {
                assert(decimal(m0) == seq![crate::codec::hex_digit(m0)]);
                assert(m0 % 10 == m0);
                assert(decimal(n as int) =~= out@);
            } else {
                assert(decimal(m0) == decimal(m0 / 10) + seq![crate::codec::hex_digit(
                    m0 % 10,
                )]);
                assert(decimal(m0) + out0 =~= decimal(m0 / 10) + out@);
            }
        }
        m = m / 10;
    }
    out
}

/// Is `c` a decimal digit?
pub open spec fn is_digit(c: char) -> bool {
    48 <= (c as int) && (c as int) <= 57
}

/// The value of a decimal digit.
pub open spec fn digit_val(c: char) -> int {
    c as int - 48
}

/// The value of a string of decimal digits, most significant first.
pub open spec fn digits_val(s: Seq<char>) -> int
    decreases s.len(),
{
    if s.len() == 0 {
        0
    } else {
        digits_val(s.drop_last()) * 10 + digit_val(s.last())
    }
}

/// Ten to the `k`.
pub open spec fn pow10(k: nat) -> int
    decreases k,
{
    if k == 0 {
        1
    } else {
        10 * pow10((k - 1) as nat)
    }
}

/// A canonical run of digits: nonempty, digits only, no leading zero.
pub open spec fn canonical_digits(s: Seq<char>) -> bool {
    &&& s.len() >= 1
    &&& forall|i: int| 0 <= i < s.len() ==> is_digit(#[trigger] s[i])
    &&& (s.len() > 1 ==> s[0] != '0')
}

/// The decimal rendering of a number is canonical and reads back to it.
proof fn lemma_decimal_canonical(n: int)
    requires
        0 <= n,
    ensures
        canonical_digits(decimal(n)),
        digits_val(decimal(n)) == n,
        n >= 1 ==> decimal(n)[0] != '0',
    decreases n,
{
    if n < 10 {
        assert(decimal(n) =~= seq![crate::codec::hex_digit(n)]);
        assert(is_digit(crate::codec::hex_digit(n)));
        assert(digits_val(decimal(n)) == n) by {
            assert(decimal(n).drop_last() =~= Seq::<char>::empty());
            assert(digits_val(Seq::<char>::empty()) == 0);
            assert(digit_val(crate::codec::hex_digit(n)) == n);
        }
    } else {
        lemma_decimal_canonical(n / 10);
        let d = decimal(n);
        let dd = decimal(n / 10);
        assert(d == dd + seq![crate::codec::hex_digit(n % 10)]);
        assert(d[0] == dd[0]);
        assert forall|i: int| 0 <= i < d.len() implies is_digit(#[trigger] d[i]) by {
            if i < dd.len() {
                assert(d[i] == dd[i]);
            } else {
                assert(d[i] == crate::codec::hex_digit(n % 10));
            }
        }
        assert(d.drop_last() =~= dd);
        assert(d.last() == crate::codec::hex_digit(n % 10));
        assert(digit_val(crate::codec::hex_digit(n % 10)) == n % 10);
        assert(digits_val(d) == (n / 10) * 10 + n % 10);
        assert((n / 10) * 10 + n % 10 == n);
    }
}

/// A canonical run of digits is the decimal rendering of its value.
proof fn lemma_digits_canonical(s: Seq<char>)
    requires
        canonical_digits(s),
    ensures
        decimal(digits_val(s)) == s,
        0 <= digits_val(s),
    decreases s.len(),
{
    if s.len() == 1 {
        assert(s.drop_last() =~= Seq::<char>::empty());
        assert(digits_val(Seq::<char>::empty()) == 0);
        assert(s.last() == s[0]);
        assert(digits_val(s) == digit_val(s[0]));
        assert(decimal(digit_val(s[0])) =~= seq![crate::codec::hex_digit(digit_val(s[0]))]);
        assert(crate::codec::hex_digit(digit_val(s[0])) == s[0]);
        assert(decimal(digits_val(s)) =~= s);
    } else {
        let s0 = s.drop_last();
        assert(canonical_digits(s0)) by {
            assert(forall|i: int| 0 <= i < s0.len() ==> s0[i] == s[i]);
        }
        lemma_digits_canonical(s0);
        let v0 = digits_val(s0);
        assert(v0 >= 1) by {
            if v0 == 0 {
                assert(decimal(0) =~= seq![crate::codec::hex_digit(0)]);
                assert(s0[0] == '0');
            }
        }
        let d = digit_val(s.last());
        let v = v0 * 10 + d;
        assert(v >= 10 && v / 10 == v0 && v % 10 == d) by {
            assert(0 <= d < 10);
        }
        assert(decimal(v) == decimal(v0) + seq![crate::codec::hex_digit(v % 10)]);
        assert(crate::codec::hex_digit(d) == s.last()) by {
            assert(is_digit(s.last()));
        }
        assert(decimal(v) =~= s);
    }
}

/// The value of a run of digits is below ten to its length.
proof fn lemma_digits_val_bound(s: Seq<char>)
    requires
        forall|i: int| 0 <= i < s.len() ==> is_digit(#[trigger] s[i]),
    ensures
        0 <= digits_val(s) < pow10(s.len()),
    decreases s.len(),
{
    if s.len() == 0 {
    } else {
        let s0 = s.drop_last();
        assert(forall|i: int| 0 <= i < s0.len() ==> s0[i] == s[i]);
        lemma_digits_val_bound(s0);
        assert(0 <= digit_val(s.last()) < 10);
        assert(pow10(s.len()) == 10 * pow10(s0.len()));
    }
}

/// A canonical run of more than one digit is worth at least ten to one
/// less than its length.
proof fn lemma_digits_val_lower(s: Seq<char>)
    requires
        canonical_digits(s),
        s.len() > 1,
    ensures
        digits_val(s) >= pow10((s.len() - 1) as nat),
    decreases s.len(),
{
    let s0 = s.drop_last();
    assert(canonical_digits(s0)) by {
        assert(forall|i: int| 0 <= i < s0.len() ==> s0[i] == s[i]);
    }
    if s0.len() == 1 {
        assert(digit_val(s0[0]) >= 1) by {
            assert(s0[0] == s[0] && s[0] != '0' && is_digit(s[0]));
        }
        assert(digits_val(s0) == digit_val(s0.last())) by {
            assert(s0.drop_last() =~= Seq::<char>::empty());
            assert(digits_val(Seq::<char>::empty()) == 0);
        }
        assert(s0.last() == s0[0]);
        assert(pow10(0) == 1);
        assert(pow10(1) == 10);
    } else {
        lemma_digits_val_lower(s0);
        assert(pow10((s.len() - 1) as nat) == 10 * pow10((s0.len() - 1) as nat));
    }
    assert(digit_val(s.last()) >= 0);
}

/// Ten to a higher power is no smaller.
proof fn lemma_pow10_mono(a: nat, b: nat)
    requires
        a <= b,
    ensures
        1 <= pow10(a) <= pow10(b),
    decreases b,
{
    if b == 0 {
    } else if a == b {
        lemma_pow10_mono(0, (b - 1) as nat);
    } else {
        lemma_pow10_mono(a, (b - 1) as nat);
    }
}

/// How a segment file name decomposes: the digits of the generation, then
/// `.log`.
proof fn lemma_log_name_parts(name: Seq<char>, g: u64)
    requires
        name == log_name(g),
    ensures
        name.len() >= 5,
        decimal(g as int).len() == name.len() - 4,
        name.subrange(0, name.len() - 4) == decimal(g as int),
        name[name.len() - 4] == '.',
        name[name.len() - 3] == 'l',
        name[name.len() - 2] == 'o',
        name[name.len() - 1] == 'g',
        canonical_digits(name.subrange(0, name.len() - 4)),
        digits_val(name.subrange(0, name.len() - 4)) == g,
{
    lemma_decimal_canonical(g as int);
    let d = decimal(g as int);
    let k = d.len() as int;
    assert(name.len() == k + 4);
    assert(name.subrange(0, k) =~= d) by {
        assert(forall|t: int| 0 <= t < k ==> name[t] == #[trigger] d[t]);
    }
    assert(name[k] == '.' && name[k + 1] == 'l' && name[k + 2] == 'o' && name[k + 3] == 'g');
}

/// Is `c` a decimal digit?
fn is_digit_exec(c: char) -> (b: bool)
    ensures
        b == is_digit(c),
{
    let v = c as u32;
    48 <= v && v <= 57
}

/// The value of a decimal digit.
fn digit_val_exec(c: char) -> (r: u32)
    requires
        is_digit(c),
    ensures
        r as int == digit_val(c),
        r < 10,
{
    c as u32 - 48
}

/// The generation a segment file name denotes.  It reads back exactly the
/// names [`log_path`] writes, and nothing else: any other name is ignored
/// when a directory is scanned.
pub fn parse_log_name(name: &String) -> (r: Option<u64>)
    ensures
        match r {
            Some(g) => name@ == log_name(g),
            None => forall|g: u64| name@ != log_name(g),
        },
{
    let cs = crate::codec::string_chars(name.as_str());
    let n = cs.len();
    if n < 5 {
        proof {
            assert forall|g: u64| name@ != log_name(g) by {
                if name@ == log_name(g) {
                    lemma_log_name_parts(name@, g);
                }
            }
        }
        return None;
    }
    let m = n - 4;
    if !(cs[m] == '.' && cs[m + 1] == 'l' && cs[m + 2] == 'o' && cs[m + 3] == 'g') {
        proof {
            assert forall|g: u64| name@ != log_name(g) by {
                if name@ == log_name(g) {
                    lemma_log_name_parts(name@, g);
                }
            }
        }
        return None;
    }
    let ghost digs = name@.subrange(0, m as int);
    if m > 20 {
        proof {
            assert forall|g: u64| name@ != log_name(g) by {
                if name@ == log_name(g) {
                    lemma_log_name_parts(name@, g);
                    lemma_digits_val_lower(digs);
                    lemma_pow10_mono(20, (m - 1) as nat);
                    reveal_with_fuel(pow10, 21);
                    assert(pow10(20) == 100000000000000000000);
                }
            }
        }
        return None;
    }
    if m > 1 && cs[0] == '0' {
        proof {
            assert forall|g: u64| name@ != log_name(g) by {
                if name@ == log_name(g) {
                    lemma_log_name_parts(name@, g);
                    assert(digs[0] == name@[0]);
                }
            }
        }
        return None;
    }
    let mut acc: u128 = 0;
    let mut i: usize = 0;
    proof {
        assert(name@.subrange(0, 0) =~= Seq::<char>::empty());
        assert(digits_val(Seq::<char>::empty()) == 0);
        assert(pow10(0) == 1);
    }
    while i < m
        invariant
            i <= m,
            1 <= m <= 20,
            m == n - 4,
            n == cs@.len(),
            cs@ == name@,
            forall|t: int| 0 <= t < i ==> is_digit(#[trigger] name@[t]),
            acc == digits_val(name@.subrange(0, i as int)),
            acc < pow10(i as nat),
        decreases m - i,
    {
        let c = cs[i];
        if !is_digit_exec(c) {
            proof {
                assert forall|g: u64| name@ != log_name(g) by {
                    if name@ == log_name(g) {
                        lemma_log_name_parts(name@, g);
                        assert(is_digit(name@.subrange(0, m as int)[i as int]));
                    }
                }
            }
            return None;
        }
        let d = digit_val_exec(c);
        proof {
            lemma_pow10_mono(i as nat + 1, 20);
            reveal_with_fuel(pow10, 21);
            assert(pow10(20) == 100000000000000000000);
            let pre = name@.subrange(0, i as int);
            let pre2 = name@.subrange(0, i as int + 1);
            assert(pre2.drop_last() =~= pre);
            assert(pre2.last() == name@[i as int]);
            assert(digits_val(pre2) == digits_val(pre) * 10 + digit_val(name@[i as int]));
        }
        acc = acc * 10 + (d as u128);
        i = i + 1;
    }
    proof {
        assert(name@.subrange(0, m as int) == digs);
    }
    if acc > u64::MAX as u128 {
        proof {
            assert forall|g: u64| name@ != log_name(g) by {
                if name@ == log_name(g) {
                    lemma_log_name_parts(name@, g);
                }
            }
        }
        return None;
    }
    let g = acc as u64;
    proof {
        assert(canonical_digits(digs));
        lemma_digits_canonical(digs);
        assert(decimal(g as int) == digs);
        assert(name@ =~= digs + seq!['.', 'l', 'o', 'g']) by {
            assert(name@[m as int] == '.' && name@[m + 1] == 'l' && name@[m + 2] == 'o'
                && name@[m + 3] == 'g');
            assert(forall|t: int| 0 <= t < m ==> name@[t] == #[trigger] digs[t]);
        }
        assert(name@ == log_name(g));
    }
    Some(g)
}

/// The file name of the segment of generation `gen`.
pub fn log_path(gen: u64) -> (r: String)
    ensures
        r@ == log_name(gen),
{
    let mut digits = decimal_digits(gen);
    digits.push('.');
    digits.push('l');
    digits.push('o');
    digits.push('g');
    proof {
        assert(digits@ =~= decimal(gen as int) + seq!['.', 'l', 'o', 'g']);
    }
    crate::codec::chars_string(&digits)
}


/// The texts of the segments, in sequence order.
pub open spec fn seg_datas(segs: Seq<Segment>) -> Seq<Seq<char>> {
    segs.map_values(|s: Segment| s.data@)
}

/// One record applied to the logical contents.  A `Remove` of an absent key
/// is a replay error: the store never writes a tombstone without a live
/// `Set` before it.
pub open spec fn apply_command(
    m: Map<Seq<char>, Seq<char>>,
    c: CommandView,
) -> Option<Map<Seq<char>, Seq<char>>> {
    match c {
        CommandView::Put { key, value } => Some(m.insert(key, value)),
        CommandView::Remove { key } => if m.contains_key(key) {
            Some(m.remove(key))
        } else {
            None
        },
    }
}

/// A stream of records applied in order.
pub open spec fn apply_commands(
    m: Map<Seq<char>, Seq<char>>,
    cs: Seq<CommandView>,
) -> Option<Map<Seq<char>, Seq<char>>>
    decreases cs.len(),
{
    if cs.len() == 0 {
        Some(m)
    } else {
        match apply_command(m, cs[0]) {
            Some(m2) => apply_commands(m2, cs.drop_first()),
            None => None,
        }
    }
}

/// One segment's records applied in order.
pub open spec fn replay_segment(
    m: Map<Seq<char>, Seq<char>>,
    data: Seq<char>,
) -> Option<Map<Seq<char>, Seq<char>>> {
    match records(data) {
        Some(cs) => apply_commands(m, cs),
        None => None,
    }
}

/// The segments replayed in sequence order: what recovery computes when the
/// segments are given in ascending generation order.
pub open spec fn replay(
    m: Map<Seq<char>, Seq<char>>,
    datas: Seq<Seq<char>>,
) -> Option<Map<Seq<char>, Seq<char>>>
    decreases datas.len(),
{
    if datas.len() == 0 {
        Some(m)
    } else {
        match replay_segment(m, datas[0]) {
            Some(m2) => replay(m2, datas.drop_first()),
            None => None,
        }
    }
}

/// Applying one record more.
proof fn lemma_apply_commands_push(
    m: Map<Seq<char>, Seq<char>>,
    cs: Seq<CommandView>,
    c: CommandView,
)
    ensures
        apply_commands(m, cs.push(c)) == (match apply_commands(m, cs) {
            Some(m2) => apply_command(m2, c),
            None => None,
        }),
    decreases cs.len(),
{
    if cs.len() == 0 {
        assert(cs.push(c)[0] == c);
        assert(cs.push(c).drop_first() =~= Seq::<CommandView>::empty());
        if let Some(m2) = apply_command(m, c) {
            assert(apply_commands(m2, Seq::<CommandView>::empty()) == Some(m2));
        }
    } else {
        assert(cs.push(c)[0] == cs[0]);
        assert(cs.push(c).drop_first() =~= cs.drop_first().push(c));
        if let Some(m2) = apply_command(m, cs[0]) {
            lemma_apply_commands_push(m2, cs.drop_first(), c);
        }
    }
}

/// Applying a concatenation of record streams.
proof fn lemma_apply_commands_concat(
    m: Map<Seq<char>, Seq<char>>,
    a: Seq<CommandView>,
    b: Seq<CommandView>,
)
    ensures
        apply_commands(m, a + b) == (match apply_commands(m, a) {
            Some(m2) => apply_commands(m2, b),
            None => None,
        }),
    decreases a.len(),
{
    if a.len() == 0 {
        assert(a + b =~= b);
    } else {
        assert((a + b)[0] == a[0]);
        assert((a + b).drop_first() =~= a.drop_first() + b);
        if let Some(m2) = apply_command(m, a[0]) {
            lemma_apply_commands_concat(m2, a.drop_first(), b);
        }
    }
}

/// Replaying one segment more.
proof fn lemma_replay_push(m: Map<Seq<char>, Seq<char>>, datas: Seq<Seq<char>>, d: Seq<char>)
    ensures
        replay(m, datas.push(d)) == (match replay(m, datas) {
            Some(m2) => replay_segment(m2, d),
            None => None,
        }),
    decreases datas.len(),
{
    if datas.len() == 0 {
        assert(datas.push(d)[0] == d);
        assert(datas.push(d).drop_first() =~= Seq::<Seq<char>>::empty());
        if let Some(m2) = replay_segment(m, d) {
            assert(replay(m2, Seq::<Seq<char>>::empty()) == Some(m2));
        }
    } else {
        assert(datas.push(d)[0] == datas[0]);
        assert(datas.push(d).drop_first() =~= datas.drop_first().push(d));
        if let Some(m2) = replay_segment(m, datas[0]) {
            lemma_replay_push(m2, datas.drop_first(), d);
        }
    }
}

/// Replaying a concatenation of segment sequences.
proof fn lemma_replay_concat(m: Map<Seq<char>, Seq<char>>, a: Seq<Seq<char>>, b: Seq<Seq<char>>)
    ensures
        replay(m, a + b) == (match replay(m, a) {
            Some(m2) => replay(m2, b),
            None => None,
        }),
    decreases a.len(),
{
    if a.len() == 0 {
        assert(a + b =~= b);
    } else {
        assert((a + b)[0] == a[0]);
        assert((a + b).drop_first() =~= a.drop_first() + b);
        if let Some(m2) = replay_segment(m, a[0]) {
            lemma_replay_concat(m2, a.drop_first(), b);
        }
    }
}

/// Do the segments hold one of generation `g`?
pub open spec fn has_gen(segs: Seq<Segment>, g: u64) -> bool {
    exists|k: int| 0 <= k < segs.len() && segs[k].gen == g
}

/// Generations strictly ascending in sequence order.
pub open spec fn gens_ascending(segs: Seq<Segment>) -> bool {
    forall|i: int, j: int| 0 <= i < j < segs.len() ==> segs[i].gen < segs[j].gen
}

/// No two segments of one generation.
pub open spec fn gens_distinct(segs: Seq<Segment>) -> bool {
    forall|i: int, j: int| 0 <= i < j < segs.len() ==> segs[i].gen != segs[j].gen
}

/// `x` placed before the first segment of a generation at least its own.
pub open spec fn insert_by_gen(s: Seq<Segment>, x: Segment) -> Seq<Segment>
    decreases s.len(),
{
    if s.len() == 0 {
        seq![x]
    } else if x.gen <= s[0].gen {
        seq![x] + s
    } else {
        seq![s[0]] + insert_by_gen(s.drop_first(), x)
    }
}

/// The segments in ascending generation order (insertion sort).
pub open spec fn sort_by_gen(s: Seq<Segment>) -> Seq<Segment>
    decreases s.len(),
{
    if s.len() == 0 {
        Seq::empty()
    } else {
        insert_by_gen(sort_by_gen(s.drop_last()), s.last())
    }
}

/// What an insertion holds: one element more, the same generations.
proof fn lemma_insert_by_gen_props(s: Seq<Segment>, x: Segment)
    ensures
        insert_by_gen(s, x).len() == s.len() + 1,
        forall|t: int| 0 <= t < insert_by_gen(s, x).len() ==> (#[trigger] insert_by_gen(s, x)[t]
            == x || s.contains(insert_by_gen(s, x)[t])),
        forall|g: u64| has_gen(insert_by_gen(s, x), g) <==> (has_gen(s, g) || x.gen == g),
        insert_by_gen(s, x).contains(x),
    decreases s.len(),
{
    let r = insert_by_gen(s, x);
    if s.len() == 0 {
        assert(r[0] == x);
        assert forall|g: u64| has_gen(r, g) <==> (has_gen(s, g) || x.gen == g) by {
            if x.gen == g {
                assert(r[0].gen == g);
            }
        }
    } else if x.gen <= s[0].gen {
        assert(r[0] == x);
        assert forall|t: int| 0 <= t < r.len() implies (#[trigger] r[t] == x || s.contains(
            r[t],
        )) by {
            if t > 0 {
                assert(r[t] == s[t - 1]);
            }
        }
        assert forall|g: u64| has_gen(r, g) <==> (has_gen(s, g) || x.gen == g) by {
            if has_gen(r, g) {
                let k = choose|k: int| 0 <= k < r.len() && r[k].gen == g;
                if k > 0 {
                    assert(s[k - 1].gen == g);
                }
            }
            if has_gen(s, g) {
                let k = choose|k: int| 0 <= k < s.len() && s[k].gen == g;
                assert(r[k + 1].gen == g);
            }
            if x.gen == g {
                assert(r[0].gen == g);
            }
        }
    } else {
        let d = s.drop_first();
        lemma_insert_by_gen_props(d, x);
        let rd = insert_by_gen(d, x);
        assert(r == seq![s[0]] + rd);
        assert forall|t: int| 0 <= t < r.len() implies (#[trigger] r[t] == x || s.contains(
            r[t],
        )) by {
            if t == 0 {
                assert(r[0] == s[0]);
                assert(s.contains(s[0]));
            } else {
                assert(r[t] == rd[t - 1]);
                if rd[t - 1] == x {
                } else {
                    let k = choose|k: int| 0 <= k < d.len() && d[k] == rd[t - 1];
                    assert(s[k + 1] == rd[t - 1]);
                }
            }
        }
        assert forall|g: u64| has_gen(r, g) <==> (has_gen(s, g) || x.gen == g) by {
            if has_gen(r, g) {
                let k = choose|k: int| 0 <= k < r.len() && r[k].gen == g;
                if k == 0 {
                    assert(s[0].gen == g);
                } else {
                    assert(rd[k - 1].gen == g);
                    assert(has_gen(rd, g));
                    if has_gen(d, g) {
                        let k2 = choose|k2: int| 0 <= k2 < d.len() && d[k2].gen == g;
                        assert(s[k2 + 1].gen == g);
                    }
                }
            }
            if has_gen(s, g) {
                let k = choose|k: int| 0 <= k < s.len() && s[k].gen == g;
                if k == 0 {
                    assert(r[0].gen == g);
                } else {
                    assert(d[k - 1].gen == g);
                    assert(has_gen(d, g));
                    assert(has_gen(rd, g));
                    let k2 = choose|k2: int| 0 <= k2 < rd.len() && rd[k2].gen == g;
                    assert(r[k2 + 1].gen == g);
                }
            }
            if x.gen == g {
                let k2 = choose|k2: int| 0 <= k2 < rd.len() && rd[k2] == x;
                assert(rd.contains(x));
                let k3 = choose|k3: int| 0 <= k3 < rd.len() && rd[k3] == x;
                assert(r[k3 + 1].gen == g);
            }
        }
        assert(rd.contains(x));
        let k4 = choose|k4: int| 0 <= k4 < rd.len() && rd[k4] == x;
        assert(r[k4 + 1] == x);
        assert(r.contains(x));
    }
}

/// Inserting into ascending order keeps it, when the generation is new.
proof fn lemma_insert_by_gen_sorted(s: Seq<Segment>, x: Segment)
    requires
        gens_ascending(s),
        !has_gen(s, x.gen),
    ensures
        gens_ascending(insert_by_gen(s, x)),
    decreases s.len(),
{
    let r = insert_by_gen(s, x);
    if s.len() == 0 {
    } else if x.gen <= s[0].gen {
        assert(s[0].gen != x.gen);
        assert forall|i: int, j: int| 0 <= i < j < r.len() implies r[i].gen < r[j].gen by {
            if i == 0 {
                assert(r[j] == s[j - 1]);
                if j > 1 {
                    assert(s[0].gen < s[j - 1].gen);
                }
            } else {
                assert(r[i] == s[i - 1] && r[j] == s[j - 1]);
            }
        }
    } else {
        let d = s.drop_first();
        assert(forall|k: int| 0 <= k < d.len() ==> #[trigger] d[k].gen == s[k + 1].gen);
        assert(!has_gen(d, x.gen)) by {
            if has_gen(d, x.gen) {
                let k = choose|k: int| 0 <= k < d.len() && d[k].gen == x.gen;
                assert(s[k + 1].gen == x.gen);
            }
        }
        lemma_insert_by_gen_sorted(d, x);
        lemma_insert_by_gen_props(d, x);
        let rd = insert_by_gen(d, x);
        assert forall|i: int, j: int| 0 <= i < j < r.len() implies r[i].gen < r[j].gen by {
            if i == 0 {
                assert(r[j] == rd[j - 1]);
                if rd[j - 1] == x {
                    assert(r[j].gen > s[0].gen);
                } else {
                    assert(d.contains(rd[j - 1]));
                    let k = choose|k: int| 0 <= k < d.len() && d[k] == rd[j - 1];
                    assert(s[0].gen < s[k + 1].gen);
                }
            } else {
                assert(r[i] == rd[i - 1] && r[j] == rd[j - 1]);
            }
        }
    }
}

/// What the sort holds: the same generations, ascending, one per segment.
proof fn lemma_sort_by_gen_props(s: Seq<Segment>)
    requires
        gens_distinct(s),
    ensures
        sort_by_gen(s).len() == s.len(),
        gens_ascending(sort_by_gen(s)),
        forall|g: u64| has_gen(sort_by_gen(s), g) <==> has_gen(s, g),
    decreases s.len(),
{
    if s.len() == 0 {
    } else {
        let d = s.drop_last();
        let x = s.last();
        assert(gens_distinct(d));
        lemma_sort_by_gen_props(d);
        let sd = sort_by_gen(d);
        assert(!has_gen(sd, x.gen)) by {
            if has_gen(sd, x.gen) {
                assert(has_gen(d, x.gen));
                let k = choose|k: int| 0 <= k < d.len() && d[k].gen == x.gen;
                assert(s[k].gen == s[s.len() - 1].gen);
            }
        }
        lemma_insert_by_gen_sorted(sd, x);
        lemma_insert_by_gen_props(sd, x);
        assert forall|g: u64| has_gen(sort_by_gen(s), g) <==> has_gen(s, g) by {
            if has_gen(s, g) {
                let k = choose|k: int| 0 <= k < s.len() && s[k].gen == g;
                if k == s.len() - 1 {
                    assert(x.gen == g);
                } else {
                    assert(d[k].gen == g);
                    assert(has_gen(d, g));
                }
            }
            if has_gen(d, g) {
                let k = choose|k: int| 0 <= k < d.len() && d[k].gen == g;
                assert(s[k].gen == g);
            }
            if x.gen == g {
                assert(s[s.len() - 1].gen == g);
            }
        }
    }
}

/// A sequence already in ascending order is its own sort.
proof fn lemma_sort_by_gen_of_sorted(s: Seq<Segment>)
    requires
        gens_ascending(s),
    ensures
        sort_by_gen(s) == s,
    decreases s.len(),
{
    if s.len() == 0 {
        assert(sort_by_gen(s) =~= s);
    } else {
        let d = s.drop_last();
        let x = s.last();
        assert(gens_ascending(d));
        lemma_sort_by_gen_of_sorted(d);
        assert(forall|t: int| 0 <= t < d.len() ==> #[trigger] d[t].gen < x.gen);
        lemma_insert_at(d, x, d.len() as int);
        assert(d.subrange(0, d.len() as int) =~= d);
        assert(d.subrange(d.len() as int, d.len() as int) =~= Seq::<Segment>::empty());
        assert(d + seq![x] + Seq::<Segment>::empty() =~= s);
    }
}

/// Where the insertion lands: before the first generation at least `x`'s.
proof fn lemma_insert_at(s: Seq<Segment>, x: Segment, p: int)
    requires
        0 <= p <= s.len(),
        forall|t: int| 0 <= t < p ==> #[trigger] s[t].gen < x.gen,
        p < s.len() ==> x.gen <= s[p].gen,
    ensures
        insert_by_gen(s, x) == s.subrange(0, p) + seq![x] + s.subrange(p, s.len() as int),
    decreases p,
{
    if p == 0 {
        if s.len() == 0 {
            assert(insert_by_gen(s, x) =~= s.subrange(0, 0) + seq![x] + s.subrange(0, 0));
        } else {
            assert(insert_by_gen(s, x) =~= s.subrange(0, 0) + seq![x] + s.subrange(
                0,
                s.len() as int,
            ));
        }
    } else {
        let d = s.drop_first();
        assert(s[0].gen < x.gen);
        assert(forall|t: int| 0 <= t < p - 1 ==> #[trigger] d[t].gen == s[t + 1].gen);
        lemma_insert_at(d, x, p - 1);
        assert(insert_by_gen(s, x) == seq![s[0]] + (d.subrange(0, p - 1) + seq![x] + d.subrange(
            p - 1,
            d.len() as int,
        )));
        assert(seq![s[0]] + (d.subrange(0, p - 1) + seq![x] + d.subrange(p - 1, d.len() as int))
            =~= s.subrange(0, p) + seq![x] + s.subrange(p, s.len() as int));
    }
}

/// `x` placed in ascending position among the segments.
fn insert_segment(v: Vec<Segment>, x: Segment) -> (r: Vec<Segment>)
    ensures
        r@ == insert_by_gen(v@, x),
{
    let mut p: usize = 0;
    while p < v.len() && v[p].gen < x.gen
        invariant
            p <= v@.len(),
            forall|t: int| 0 <= t < p ==> #[trigger] v@[t].gen < x.gen,
        decreases v@.len() - p,
    {
        p = p + 1;
    }
    proof {
        lemma_insert_at(v@, x, p as int);
    }
    let ghost oldv = v@;
    let mut r = v;
    r.insert(p, x);
    proof {
        assert(oldv.insert(p as int, x) =~= oldv.subrange(0, p as int) + seq![x] + oldv.subrange(
            p as int,
            oldv.len() as int,
        ));
    }
    r
}

/// The segments in ascending generation order.
fn sort_segments(files: Vec<Segment>) -> (r: Vec<Segment>)
    ensures
        r@ == sort_by_gen(files@),
{
    let ghost orig = files@;
    let mut rest = files;
    let mut out: Vec<Segment> = Vec::new();
    proof {
        assert(orig.subrange(0, 0) =~= Seq::<Segment>::empty());
        assert(rest@ =~= orig.subrange(0, orig.len() as int));
    }
    while rest.len() > 0
        invariant
            rest@.len() <= orig.len(),
            rest@ == orig.subrange(orig.len() - rest@.len(), orig.len() as int),
            out@ == sort_by_gen(orig.subrange(0, orig.len() - rest@.len())),
        decreases rest@.len(),
    {
        let ghost k = orig.len() - rest@.len();
        let x = rest.remove(0);
        proof {
            assert(x == orig[k as int]);
            assert(rest@ =~= orig.subrange(k as int + 1, orig.len() as int));
            let pre = orig.subrange(0, k as int);
            let pre2 = orig.subrange(0, k as int + 1);
            assert(pre2.drop_last() =~= pre);
            assert(pre2.last() == orig[k as int]);
        }
        out = insert_segment(out, x);
    }
    proof {
        assert(orig.subrange(0, orig.len() as int) =~= orig);
    }
    out
}

/// The total length of the segment texts.
pub open spec fn total_len(datas: Seq<Seq<char>>) -> int
    decreases datas.len(),
{
    if datas.len() == 0 {
        0
    } else {
        total_len(datas.drop_last()) + datas.last().len()
    }
}


/// Compaction runs once this many characters have been written since the
/// last compaction.
pub const COMPACTION_THRESHOLD: u64 = 1048576;

/// Where a key's latest `Set` record stands: the segment's generation, the
/// record's start, and its length.
struct CommandPos {
    gen: u64,
    pos: u64,
    len: u64,
}

/// One index entry.  The value the record holds is carried as ghost state:
/// the store reads it back from the segment when it is asked for.
struct IndexEntry {
    key: String,
    pos: CommandPos,
    value: Ghost<Seq<char>>,
}

/// The mapping an index stands for: each entry's key to its value, later
/// entries over earlier ones.
spec fn index_map(es: Seq<IndexEntry>) -> Map<Seq<char>, Seq<char>>
    decreases es.len(),
{
    if es.len() == 0 {
        Map::empty()
    } else {
        index_map(es.drop_last()).insert(es.last().key@, es.last().value@)
    }
}

/// No two entries for one key.
spec fn keys_distinct(es: Seq<IndexEntry>) -> bool {
    forall|i: int, j: int| 0 <= i < j < es.len() ==> es[i].key@ != es[j].key@
}

/// A key is in the mapping exactly when an entry holds it.
proof fn lemma_index_map_contains(es: Seq<IndexEntry>, k: Seq<char>)
    ensures
        index_map(es).contains_key(k) <==> exists|t: int| 0 <= t < es.len()
            && (#[trigger] es[t].key@) == k,
    decreases es.len(),
{
    if es.len() == 0 {
    } else {
        lemma_index_map_contains(es.drop_last(), k);
        let d = es.drop_last();
        if index_map(es).contains_key(k) {
            if es.last().key@ == k {
                assert(es[es.len() - 1].key@ == k);
            } else {
                let t = choose|t: int| 0 <= t < d.len() && (#[trigger] d[t].key@) == k;
                assert(es[t].key@ == k);
            }
        }
        if exists|t: int| 0 <= t < es.len() && (#[trigger] es[t].key@) == k {
            let t = choose|t: int| 0 <= t < es.len() && (#[trigger] es[t].key@) == k;
            if t < es.len() - 1 {
                assert(d[t].key@ == k);
            }
        }
    }
}

/// With one entry per key, each entry gives its key's value.
proof fn lemma_index_map_get(es: Seq<IndexEntry>, t: int)
    requires
        keys_distinct(es),
        0 <= t < es.len(),
    ensures
        index_map(es).contains_key(es[t].key@),
        index_map(es)[es[t].key@] == es[t].value@,
    decreases es.len(),
{
    if t == es.len() - 1 {
    } else {
        let d = es.drop_last();
        assert(keys_distinct(d));
        assert(d[t] == es[t]);
        lemma_index_map_get(d, t);
        assert(es.last().key@ != es[t].key@);
    }
}

/// Appending an entry inserts its pair.
proof fn lemma_index_map_push(es: Seq<IndexEntry>, e: IndexEntry)
    ensures
        index_map(es.push(e)) == index_map(es).insert(e.key@, e.value@),
{
    assert(es.push(e).drop_last() =~= es);
    assert(es.push(e).last() == e);
}

/// Removing the only entry for a key removes its pair.
proof fn lemma_index_map_remove(es: Seq<IndexEntry>, t: int)
    requires
        keys_distinct(es),
        0 <= t < es.len(),
    ensures
        index_map(es.remove(t)) == index_map(es).remove(es[t].key@),
    decreases es.len(),
{
    let d = es.drop_last();
    let k = es[t].key@;
    if t == es.len() - 1 {
        assert(es.remove(t) =~= d);
        lemma_index_map_contains(d, k);
        assert(forall|u: int| 0 <= u < d.len() ==> (#[trigger] d[u].key@) != k);
        assert(!index_map(d).contains_key(k));
        assert(index_map(d).insert(k, es[t].value@).remove(k) =~= index_map(d));
    } else {
        assert(keys_distinct(d));
        assert(d[t] == es[t]);
        lemma_index_map_remove(d, t);
        assert(es.remove(t).drop_last() =~= d.remove(t));
        assert(es.remove(t).last() == es.last());
        let lk = es.last().key@;
        let lv = es.last().value@;
        assert(lk != k);
        assert(index_map(es.remove(t)) == index_map(d).remove(k).insert(lk, lv));
        assert(index_map(d).remove(k).insert(lk, lv) =~= index_map(d).insert(lk, lv).remove(k));
    }
}

/// Two indexes with the same keys and values stand for the same mapping.
proof fn lemma_index_map_congruent(a: Seq<IndexEntry>, b: Seq<IndexEntry>)
    requires
        a.len() == b.len(),
        forall|t: int| 0 <= t < a.len() ==> (#[trigger] a[t].key@) == b[t].key@
            && a[t].value@ == b[t].value@,
    ensures
        index_map(a) == index_map(b),
    decreases a.len(),
{
    if a.len() == 0 {
        assert(index_map(a) =~= index_map(b));
    } else {
        let da = a.drop_last();
        let db = b.drop_last();
        assert forall|t: int| 0 <= t < da.len() implies (#[trigger] da[t].key@) == db[t].key@
            && da[t].value@ == db[t].value@ by {
            assert(da[t] == a[t]);
            assert(db[t] == b[t]);
        }
        lemma_index_map_congruent(da, db);
        assert(a.last().key@ == b.last().key@ && a.last().value@ == b.last().value@) by {
            assert(a[a.len() - 1].key@ == b[a.len() - 1].key@ && a[a.len() - 1].value@ == b[a.len()
                - 1].value@);
        }
    }
}

/// The sum of the live records' lengths.
spec fn entries_len(es: Seq<IndexEntry>) -> int
    decreases es.len(),
{
    if es.len() == 0 {
        0
    } else {
        entries_len(es.drop_last()) + es.last().pos.len
    }
}

/// Dropping an entry drops exactly its record's length from the sum.
proof fn lemma_entries_len_remove(es: Seq<IndexEntry>, t: int)
    requires
        0 <= t < es.len(),
    ensures
        entries_len(es.remove(t)) == entries_len(es) - es[t].pos.len,
    decreases es.len(),
{
    if t == es.len() - 1 {
        assert(es.remove(t) =~= es.drop_last());
    } else {
        lemma_entries_len_remove(es.drop_last(), t);
        assert(es.remove(t).drop_last() =~= es.drop_last().remove(t));
        assert(es.remove(t).last() == es.last());
        assert(es.drop_last()[t] == es[t]);
    }
}

/// Two indexes whose records have the same lengths sum to the same total.
proof fn lemma_entries_len_congruent(a: Seq<IndexEntry>, b: Seq<IndexEntry>)
    requires
        a.len() == b.len(),
        forall|t: int| 0 <= t < a.len() ==> (#[trigger] a[t].pos.len) == b[t].pos.len,
    ensures
        entries_len(a) == entries_len(b),
    decreases a.len(),
{
    if a.len() == 0 {
    } else {
        let da = a.drop_last();
        let db = b.drop_last();
        assert forall|t: int| 0 <= t < da.len() implies (#[trigger] da[t].pos.len)
            == db[t].pos.len by {
            assert(da[t] == a[t]);
            assert(db[t] == b[t]);
        }
        lemma_entries_len_congruent(da, db);
        assert(a[a.len() - 1].pos.len == b[a.len() - 1].pos.len);
    }
}

/// The record an entry points at stands in this segment's text.
#[verifier::opaque]
spec fn entry_in_seg(seg: Segment, e: IndexEntry) -> bool {
    &&& e.pos.pos + e.pos.len <= seg.data@.len()
    &&& seg.data@.subrange(e.pos.pos as int, e.pos.pos + e.pos.len) == encode_command(
        CommandView::Put { key: e.key@, value: e.value@ },
    )
}

/// The entry points into a present segment, and the record there is the
/// `Set` of its key and value.
spec fn entry_ok(segs: Seq<Segment>, e: IndexEntry) -> bool {
    &&& has_gen(segs, e.pos.gen)
    &&& forall|si: int| 0 <= si < segs.len() && (#[trigger] segs[si]).gen == e.pos.gen
        ==> entry_in_seg(segs[si], e)
}

/// The persistent key-value store.
///
/// `segments` models the directory: one entry per `<gen>.log` file, in
/// ascending generation order, the last being the active segment that new
/// records are appended to.  `index` maps each live key to the place of its
/// latest `Set` record.  `uncompacted` counts the characters written since
/// the last compaction; crossing [`COMPACTION_THRESHOLD`] triggers one.
pub struct KvStore {
    segments: Vec<Segment>,
    index: Vec<IndexEntry>,
    curr_gen: u64,
    uncompacted: u64,
}

impl View for KvStore {
    type V = Map<Seq<char>, Seq<char>>;

    /// The logical contents: each live key and its value.
    closed spec fn view(&self) -> Map<Seq<char>, Seq<char>> {
        index_map(self.index@)
    }
}

impl KvStore {
    /// The segment files as they stand on disk.
    pub closed spec fn files(&self) -> Seq<Segment> {
        self.segments@
    }

    /// The generation of the active segment.
    pub closed spec fn current_gen(&self) -> u64 {
        self.curr_gen
    }

    /// The characters written since the last compaction.
    pub closed spec fn pending(&self) -> u64 {
        self.uncompacted
    }

    /// The total size of the segment files.
    pub closed spec fn disk_len(&self) -> int {
        total_len(seg_datas(self.segments@))
    }

    /// The total size of the live records: one `Set` per live key.
    pub closed spec fn live_len(&self) -> int {
        entries_len(self.index@)
    }

    /// Everything the store maintains between operations, except the bound
    /// on the compaction counter.
    spec fn wf_core(&self) -> bool {
        &&& self.segments@.len() > 0
        &&& gens_ascending(self.segments@)
        &&& self.segments@.last().gen == self.curr_gen
        &&& forall|si: int| 0 <= si < self.segments@.len() ==> records(
            (#[trigger] self.segments@[si]).data@,
        ) is Some
        &&& replay(Map::empty(), seg_datas(self.segments@)) == Some(index_map(self.index@))
        &&& keys_distinct(self.index@)
        &&& forall|t: int| 0 <= t < self.index@.len() ==> entry_ok(
            self.segments@,
            #[trigger] self.index@[t],
        )
    }

    /// The store's invariant: what `open` establishes and every operation
    /// preserves.  In particular, replaying the segment files in order
    /// yields exactly the store's logical contents.
    pub closed spec fn wf(&self) -> bool {
        &&& self.wf_core()
        &&& self.uncompacted < COMPACTION_THRESHOLD
    }
}

/// The position of the entry that holds `key`, if one does.
fn find_entry(index: &Vec<IndexEntry>, key: &String) -> (r: Option<usize>)
    ensures
        match r {
            Some(t) => t < index@.len() && index@[t as int].key@ == key@,
            None => forall|t: int| 0 <= t < index@.len() ==> (#[trigger] index@[t].key@) != key@,
        },
{
    let mut t: usize = 0;
    while t < index.len()
        invariant
            t <= index@.len(),
            forall|u: int| 0 <= u < t ==> (#[trigger] index@[u].key@) != key@,
        decreases index@.len() - t,
    {
        if index[t].key == *key {
            return Some(t);
        }
        t = t + 1;
    }
    None
}

/// The position of the segment of generation `gen`, if one is present.
fn find_segment(segs: &Vec<Segment>, gen: u64) -> (r: Option<usize>)
    ensures
        match r {
            Some(si) => si < segs@.len() && segs@[si as int].gen == gen,
            None => !has_gen(segs@, gen),
        },
{
    let mut si: usize = 0;
    while si < segs.len()
        invariant
            si <= segs@.len(),
            forall|u: int| 0 <= u < si ==> (#[trigger] segs@[u].gen) != gen,
        decreases segs@.len() - si,
    {
        if segs[si].gen == gen {
            return Some(si);
        }
        si = si + 1;
    }
    None
}

impl KvStore {
    /// The value of `key`, read back from its `Set` record, or `None` when
    /// the key is absent.  A missing key is not an error.
    pub fn get(&mut self, key: String) -> (r: Result<Option<String>, KvError>)
        requires
            old(self).wf(),
        ensures
            *final(self) == *old(self),
            match r {
                Ok(Some(v)) => old(self)@.contains_key(key@) && v@ == old(self)@[key@],
                Ok(None) => !old(self)@.contains_key(key@),
                Err(_) => false,
            },
    {
        match find_entry(&self.index, &key) {
            None => {
                proof {
                    lemma_index_map_contains(self.index@, key@);
                }
                Ok(None)
            },
            Some(t) => {
                let gen = self.index[t].pos.gen;
                let pos = self.index[t].pos.pos;
                proof {
                    lemma_index_map_get(self.index@, t as int);
                }
                match find_segment(&self.segments, gen) {
                    None => {
                        proof {
                            assert(entry_ok(self.segments@, self.index@[t as int]));
                            assert(false);
                        }
                        Err(KvError::InvalidCommand)
                    },
                    Some(si) => {
                        let seg = &self.segments[si];
                        let n = seg.data.len();
                        proof {
                            reveal(entry_in_seg);
                            assert(entry_ok(self.segments@, self.index@[t as int]));
                            assert(entry_in_seg(self.segments@[si as int], self.index@[t as int]));
                            let e = self.index@[t as int];
                            let cv = CommandView::Put { key: e.key@, value: e.value@ };
                            assert(encode_command(cv).len() == e.pos.len);
                            lemma_encode_command_recognized(seg.data@, cv, e.pos.pos as int);
                        }
                        match parse_record(&seg.data, pos as usize) {
                            Some((cmd, _end)) => {
                                match cmd {
                                    Command::Put { value, .. } => Ok(Some(value)),
                                    Command::Remove { .. } => {
                                        proof {
                                            assert(false);
                                        }
                                        Err(KvError::InvalidCommand)
                                    },
                                }
                            },
                            None => {
                                proof {
                                    assert(false);
                                }
                                Err(KvError::Serde)
                            },
                        }
                    },
                }
            },
        }
    }
}


/// Appending a record to the active segment applies it to the replayed
/// contents, and keeps every segment a well-formed record stream.
#[verifier::rlimit(100)]
proof fn lemma_append_active(
    segs0: Seq<Segment>,
    segs1: Seq<Segment>,
    c: CommandView,
    m: Map<Seq<char>, Seq<char>>,
    m2: Map<Seq<char>, Seq<char>>,
)
    requires
        segs0.len() > 0,
        segs1.len() == segs0.len(),
        forall|si: int| 0 <= si < segs0.len() - 1 ==> segs1[si] == segs0[si],
        segs1.last().data@ == segs0.last().data@ + encode_command(c),
        replay(Map::empty(), seg_datas(segs0)) == Some(m),
        forall|si: int| 0 <= si < segs0.len() ==> records((#[trigger] segs0[si]).data@) is Some,
        apply_command(m, c) == Some(m2),
    ensures
        replay(Map::empty(), seg_datas(segs1)) == Some(m2),
        forall|si: int| 0 <= si < segs1.len() ==> records((#[trigger] segs1[si]).data@) is Some,
    decreases 0int,
{
    let e = encode_command(c);
    let datas0 = seg_datas(segs0);
    let datas1 = seg_datas(segs1);
    let dd = datas0.drop_last();
    let a = datas0.last();
    assert(a == segs0.last().data@);
    assert(datas0 =~= dd.push(a));
    lemma_replay_push(Map::empty(), dd, a);
    if let Some(mid) = replay(Map::empty(), dd) {
        assert(replay_segment(mid, a) == Some(m));
        let cs = records(a).unwrap();
        lemma_records_append(a, c);
        lemma_apply_commands_push(mid, cs, c);
        assert(replay_segment(mid, a + e) == Some(m2));
        lemma_replay_push(Map::empty(), dd, a + e);
        assert(datas1 =~= dd.push(a + e)) by {
            assert forall|si: int| 0 <= si < segs0.len() - 1 implies datas1[si] == dd[si] by {
                assert(segs1[si] == segs0[si]);
            }
            assert(datas1.last() == a + e);
        }
        assert(replay(Map::empty(), datas1) == Some(m2));
        assert forall|si: int| 0 <= si < segs1.len() implies records(
            (#[trigger] segs1[si]).data@,
        ) is Some by {
            if si < segs1.len() - 1 {
                assert(segs1[si] == segs0[si]);
            } else {
                assert(segs1[si].data@ == a + e);
            }
        }
    } else {
        assert(false);
    }
}

/// An entry stays valid when segments keep their generations and only grow
/// at the end.
proof fn lemma_entry_ok_grow(segs0: Seq<Segment>, segs1: Seq<Segment>, e: IndexEntry)
    requires
        entry_ok(segs0, e),
        segs1.len() == segs0.len(),
        forall|si: int| 0 <= si < segs0.len() ==> (#[trigger] segs1[si]).gen == segs0[si].gen,
        forall|si: int| 0 <= si < segs0.len() ==> segs0[si].data@.len() <= (
        #[trigger] segs1[si]).data@.len(),
        forall|si: int| 0 <= si < segs0.len() ==> (#[trigger] segs1[si]).data@.subrange(
            0,
            segs0[si].data@.len() as int,
        ) == segs0[si].data@,
    ensures
        entry_ok(segs1, e),
{
    let k = choose|k: int| 0 <= k < segs0.len() && segs0[k].gen == e.pos.gen;
    assert(segs1[k].gen == e.pos.gen);
    assert(has_gen(segs1, e.pos.gen));
    assert forall|si: int| 0 <= si < segs1.len() && (#[trigger] segs1[si]).gen == e.pos.gen
        implies entry_in_seg(segs1[si], e) by {
        reveal(entry_in_seg);
        assert(segs0[si].gen == e.pos.gen);
        assert(entry_in_seg(segs0[si], e));
        let p = e.pos.pos as int;
        let l = e.pos.len as int;
        let n0 = segs0[si].data@.len() as int;
        assert(segs1[si].data@.subrange(p, p + l) =~= segs0[si].data@.subrange(p, p + l)) by {
            assert forall|u: int| 0 <= u < l implies #[trigger] segs1[si].data@.subrange(
                p,
                p + l,
            )[u] == segs0[si].data@.subrange(p, p + l)[u] by {
                assert(segs1[si].data@.subrange(0, n0)[p + u] == segs0[si].data@[p + u]);
            }
        }
    }
}

/// Removing an entry keeps the keys distinct, and no remaining entry holds
/// the removed key.
proof fn lemma_keys_distinct_remove(es: Seq<IndexEntry>, t: int)
    requires
        keys_distinct(es),
        0 <= t < es.len(),
    ensures
        keys_distinct(es.remove(t)),
        forall|u: int| 0 <= u < es.remove(t).len() ==> (#[trigger] es.remove(t)[u].key@)
            != es[t].key@,
{
    let r = es.remove(t);
    assert forall|i: int, j: int| 0 <= i < j < r.len() implies r[i].key@ != r[j].key@ by {
        if i < t {
            if j < t {
                assert(r[i] == es[i] && r[j] == es[j]);
            } else {
                assert(r[i] == es[i] && r[j] == es[j + 1]);
            }
        } else {
            assert(r[i] == es[i + 1] && r[j] == es[j + 1]);
        }
    }
    assert forall|u: int| 0 <= u < r.len() implies (#[trigger] r[u].key@) != es[t].key@ by {
        if u < t {
            assert(r[u] == es[u]);
        } else {
            assert(r[u] == es[u + 1]);
        }
    }
}

/// Replacing the last text changes the total size by the difference.
proof fn lemma_total_len_update_last(datas: Seq<Seq<char>>, d: Seq<char>)
    requires
        datas.len() > 0,
    ensures
        total_len(datas.update(datas.len() - 1, d)) == total_len(datas) - datas.last().len()
            + d.len(),
{
    let dd = datas.drop_last();
    assert(datas =~= dd.push(datas.last()));
    assert(datas.update(datas.len() - 1, d) =~= dd.push(d));
    assert(dd.push(datas.last()).drop_last() =~= dd);
    assert(dd.push(d).drop_last() =~= dd);
    assert(total_len(dd.push(datas.last())) == total_len(dd) + datas.last().len());
    assert(total_len(dd.push(d)) == total_len(dd) + d.len());
}

/// A fresh entry pointing at the end of the active segment is valid.
proof fn lemma_entry_new(segs: Seq<Segment>, e: IndexEntry)
    requires
        segs.len() > 0,
        gens_ascending(segs),
        segs.last().gen == e.pos.gen,
        e.pos.pos + e.pos.len <= segs.last().data@.len(),
        segs.last().data@.subrange(e.pos.pos as int, e.pos.pos + e.pos.len) == encode_command(
            CommandView::Put { key: e.key@, value: e.value@ },
        ),
    ensures
        entry_ok(segs, e),
{
    assert(segs[segs.len() - 1].gen == e.pos.gen);
    assert(has_gen(segs, e.pos.gen));
    assert forall|si: int| 0 <= si < segs.len() && (#[trigger] segs[si]).gen == e.pos.gen
        implies entry_in_seg(segs[si], e) by {
        reveal(entry_in_seg);
        if si < segs.len() - 1 {
            assert(segs[si].gen < segs[segs.len() - 1].gen);
        }
    }
}

/// Entries valid against the old segments stay valid when the segments
/// keep their generations and only grow at the end.
proof fn lemma_entries_ok_grow_all(segs0: Seq<Segment>, segs1: Seq<Segment>, es: Seq<IndexEntry>)
    requires
        forall|t: int| 0 <= t < es.len() ==> entry_ok(segs0, #[trigger] es[t]),
        segs1.len() == segs0.len(),
        forall|si: int| 0 <= si < segs0.len() ==> (#[trigger] segs1[si]).gen == segs0[si].gen,
        forall|si: int| 0 <= si < segs0.len() ==> segs0[si].data@.len() <= (
        #[trigger] segs1[si]).data@.len(),
        forall|si: int| 0 <= si < segs0.len() ==> (#[trigger] segs1[si]).data@.subrange(
            0,
            segs0[si].data@.len() as int,
        ) == segs0[si].data@,
    ensures
        forall|t: int| 0 <= t < es.len() ==> entry_ok(segs1, #[trigger] es[t]),
{
    assert forall|t: int| 0 <= t < es.len() implies entry_ok(segs1, #[trigger] es[t]) by {
        lemma_entry_ok_grow(segs0, segs1, es[t]);
    }
}

/// A fresh entry appended to an index whose entries are valid and whose
/// keys avoid the fresh key: the whole index is valid, keys stay distinct.
proof fn lemma_set_finish(segs1: Seq<Segment>, index_mid: Seq<IndexEntry>, entry: IndexEntry)
    requires
        keys_distinct(index_mid),
        forall|u: int| 0 <= u < index_mid.len() ==> (#[trigger] index_mid[u].key@)
            != entry.key@,
        forall|t: int| 0 <= t < index_mid.len() ==> entry_ok(segs1, #[trigger] index_mid[t]),
        entry_ok(segs1, entry),
    ensures
        keys_distinct(index_mid.push(entry)),
        forall|t: int| 0 <= t < index_mid.push(entry).len() ==> entry_ok(
            segs1,
            #[trigger] index_mid.push(entry)[t],
        ),
{
    let es = index_mid.push(entry);
    assert forall|i: int, j: int| 0 <= i < j < es.len() implies es[i].key@ != es[j].key@ by {
        if j < es.len() - 1 {
            assert(es[i] == index_mid[i] && es[j] == index_mid[j]);
        } else {
            assert(es[i] == index_mid[i] && es[j] == entry);
        }
    }
    assert forall|t: int| 0 <= t < es.len() implies entry_ok(segs1, #[trigger] es[t]) by {
        if t < es.len() - 1 {
            assert(es[t] == index_mid[t]);
        } else {
            assert(es[t] == entry);
        }
    }
}

impl KvStore {
    /// Append one record to the active segment and flush it.  The index is
    /// untouched; the caller adjusts it to match `m2`, the contents after
    /// the record.
    #[verifier::rlimit(100)]
    #[verifier::spinoff_prover]
    fn append_active(&mut self, cmd: &Command, Ghost(m2): Ghost<Map<Seq<char>, Seq<char>>>) -> (r:
        (usize, usize))
        requires
            old(self).wf_core(),
            apply_command(index_map(old(self).index@), cmd@) == Some(m2),
        ensures
            final(self).index == old(self).index,
            final(self).curr_gen == old(self).curr_gen,
            final(self).uncompacted == old(self).uncompacted,
            final(self).segments@.len() == old(self).segments@.len(),
            forall|si: int| 0 <= si < old(self).segments@.len() - 1 ==> (#[trigger] final(self).segments@[si]) == old(self).segments@[si],
            gens_ascending(final(self).segments@),
            final(self).segments@.last().gen == final(self).curr_gen,
            forall|si: int| 0 <= si < final(self).segments@.len() ==> records(
                (#[trigger] final(self).segments@[si]).data@,
            ) is Some,
            replay(Map::empty(), seg_datas(final(self).segments@)) == Some(m2),
            forall|si: int| 0 <= si < old(self).segments@.len() ==> (#[trigger] final(self).segments@[si]).gen == old(self).segments@[si].gen,
            forall|si: int| 0 <= si < old(self).segments@.len() ==> old(self).segments@[si].data@.len() <= (#[trigger] final(self).segments@[si]).data@.len(),
            forall|si: int| 0 <= si < old(self).segments@.len() ==> (#[trigger] final(self).segments@[si]).data@.subrange(0, old(self).segments@[si].data@.len() as int) == old(self).segments@[si].data@,
            r.0 == old(self).segments@.last().data@.len(),
            r.1 == encode_command(cmd@).len(),
            final(self).segments@.last().data@ == old(self).segments@.last().data@
                + encode_command(cmd@),
            final(self).disk_len() == old(self).disk_len() + encode_command(cmd@).len(),
    {
        let ghost cv = cmd@;
        let ghost er = encode_command(cv);
        let ghost segs0 = self.segments@;
        let ghost m0 = index_map(self.index@);
        let rec = render_command(cmd);
        let rec_len: usize = rec.len();
        let mut active = self.segments.pop().unwrap();
        let ghost a0 = active.data@;
        let pos_before: usize = active.data.len();
        let mut recm = rec;
        active.data.append(&mut recm);
        self.segments.push(active);
        let ghost segs1 = self.segments@;
        proof {
            assert(segs1.last().data@ == a0 + er);
            assert(segs1.last().gen == self.curr_gen);
            assert(forall|si: int| 0 <= si < segs0.len() - 1 ==> segs1[si] == segs0[si]);
            lemma_append_active(segs0, segs1, cv, m0, m2);
            assert(forall|si: int| 0 <= si < segs0.len() ==> (#[trigger] segs1[si]).gen
                == segs0[si].gen);
            assert forall|si: int| 0 <= si < segs0.len() implies segs0[si].data@.len() <= (
            #[trigger] segs1[si]).data@.len() && segs1[si].data@.subrange(
                0,
                segs0[si].data@.len() as int,
            ) == segs0[si].data@ by {
                if si < segs0.len() - 1 {
                    assert(segs1[si] == segs0[si]);
                    assert(segs1[si].data@.subrange(0, segs0[si].data@.len() as int) =~= segs0[
                    si].data@);
                } else {
                    assert(segs1[si].data@ == a0 + er);
                    assert(segs1[si].data@.subrange(0, a0.len() as int) =~= a0);
                }
            }
            assert(gens_ascending(segs1)) by {
                assert(forall|i: int| 0 <= i < segs1.len() ==> (#[trigger] segs1[i]).gen
                    == segs0[i].gen);
            }
            assert(seg_datas(segs1) =~= seg_datas(segs0).update(segs0.len() - 1, a0 + er));
            lemma_total_len_update_last(seg_datas(segs0), a0 + er);
            assert(seg_datas(segs0).last() == a0);
        }
        (pos_before, rec_len)
    }

    /// Append the `Set` record for `key` and `value` and point the index
    /// at it.
    #[verifier::rlimit(100)]
    #[verifier::spinoff_prover]
    fn put_entry(&mut self, key: String, value: String)
        requires
            old(self).wf_core(),
        ensures
            final(self).wf_core(),
            final(self)@ == old(self)@.insert(key@, value@),
            final(self).curr_gen == old(self).curr_gen,
            final(self).uncompacted == old(self).uncompacted,
            final(self).disk_len() == old(self).disk_len() + encode_command(
                CommandView::Put { key: key@, value: value@ },
            ).len(),
            final(self).segments@.len() == old(self).segments@.len(),
            forall|k: int| 0 <= k < old(self).segments@.len() - 1 ==> (#[trigger] final(self).segments@[k]) == old(self).segments@[k],
            final(self).segments@.last().gen == old(self).segments@.last().gen,
            final(self).segments@.last().data@ == old(self).segments@.last().data@
                + encode_command(CommandView::Put { key: key@, value: value@ }),
            final(self).live_len() == old(self).live_len() + encode_command(
                CommandView::Put { key: key@, value: value@ },
            ).len() - (if old(self)@.contains_key(key@) {
                encode_command(
                    CommandView::Put { key: key@, value: old(self)@[key@] },
                ).len() as int
            } else {
                0int
            }),
    {
        let ghost k0 = key@;
        let ghost v0 = value@;
        let ghost cv = CommandView::Put { key: k0, value: v0 };
        let key2 = key.clone();
        let cmd = Command::Put { key, value };
        proof {
            assert(cmd@ == cv);
        }
        let ghost segs0 = self.segments@;
        let ghost index0 = self.index@;
        let ghost m0 = index_map(index0);
        let (pos_before, len_written) = self.append_active(&cmd, Ghost(m0.insert(k0, v0)));
        let ghost segs1 = self.segments@;
        let entry = IndexEntry {
            key: key2,
            pos: CommandPos {
                gen: self.curr_gen,
                pos: pos_before as u64,
                len: len_written as u64,
            },
            value: Ghost(v0),
        };
        match find_entry(&self.index, &entry.key) {
            Some(t) => {
                proof {
                    lemma_index_map_remove(self.index@, t as int);
                    lemma_keys_distinct_remove(self.index@, t as int);
                    lemma_entries_len_remove(index0, t as int);
                    // the replaced entry's record is the `Set` of the key's
                    // old value, so its length is that record's length
                    let e = index0[t as int];
                    lemma_index_map_get(index0, t as int);
                    assert(m0.contains_key(k0) && m0[k0] == e.value@);
                    assert(entry_ok(segs0, e));
                    let ks = choose|ks: int| 0 <= ks < segs0.len() && segs0[ks].gen
                        == e.pos.gen;
                    assert(entry_in_seg(segs0[ks], e));
                    assert(e.pos.len == encode_command(
                        CommandView::Put { key: k0, value: m0[k0] },
                    ).len()) by {
                        reveal(entry_in_seg);
                    }
                }
                self.index.remove(t);
                proof {
                    assert(index_map(self.index@) =~= m0.remove(k0));
                    assert forall|u: int| 0 <= u < self.index@.len() implies entry_ok(
                        segs0,
                        #[trigger] self.index@[u],
                    ) by {
                        if u < t {
                            assert(self.index@[u] == index0[u]);
                        } else {
                            assert(self.index@[u] == index0[u + 1]);
                        }
                    }
                }
            },
            None => {
                proof {
                    lemma_index_map_contains(self.index@, k0);
                    assert(!m0.contains_key(k0));
                }
            },
        }
        let ghost index_mid = self.index@;
        proof {
            assert(index_map(index_mid).insert(k0, v0) =~= m0.insert(k0, v0));
            lemma_entries_ok_grow_all(segs0, segs1, index_mid);
        }
        self.index.push(entry);
        proof {
            lemma_index_map_push(index_mid, entry);
            assert((segs0.last().data@ + encode_command(cv)).subrange(
                pos_before as int,
                pos_before + len_written,
            ) =~= encode_command(cv));
            lemma_entry_new(segs1, entry);
            lemma_set_finish(segs1, index_mid, entry);
            assert(self.index@ == index_mid.push(entry));
            assert(self.index@.drop_last() =~= index_mid);
            assert(entries_len(self.index@) == entries_len(index_mid) + entry.pos.len);
            assert(self.wf_core());
        }
    }

    /// Record `key` now holding `value`: append one `Set` record to the
    /// active segment and point the index at it.  When the write pushes the
    /// compaction counter to [`COMPACTION_THRESHOLD`], a compaction runs
    /// before returning, leaving the disk holding exactly the live
    /// records.  The one failure is a generation counter with no room for
    /// the two fresh segments a compaction needs.
    #[verifier::rlimit(100)]
    #[verifier::spinoff_prover]
    pub fn set(&mut self, key: String, value: String) -> (r: Result<(), KvError>)
        requires
            old(self).wf(),
        ensures
            final(self).wf(),
            (r is Err) <==> (old(self).current_gen() > u64::MAX - 2 && old(self).pending()
                + encode_command(CommandView::Put { key: key@, value: value@ }).len()
                >= COMPACTION_THRESHOLD),
            match r {
                Ok(()) => {
                    &&& final(self)@ == old(self)@.insert(key@, value@)
                    &&& final(self).current_gen() >= old(self).current_gen()
                    &&& final(self).live_len() == old(self).live_len() + encode_command(
                        CommandView::Put { key: key@, value: value@ },
                    ).len() - (if old(self)@.contains_key(key@) {
                        encode_command(
                            CommandView::Put { key: key@, value: old(self)@[key@] },
                        ).len() as int
                    } else {
                        0int
                    })
                    &&& if old(self).pending() + encode_command(
                        CommandView::Put { key: key@, value: value@ },
                    ).len() >= COMPACTION_THRESHOLD {
                        // a compaction ran: exactly two fresh segments remain,
                        // the compacted one and an empty active one above it
                        &&& final(self).disk_len() == final(self).live_len()
                        &&& final(self).pending() == 0
                        &&& final(self).current_gen() == old(self).current_gen() + 2
                        &&& final(self).files().len() == 2
                        &&& final(self).files()[0].gen == old(self).current_gen() + 1
                        &&& final(self).files()[1].gen == old(self).current_gen() + 2
                        &&& final(self).files()[1].data@ == Seq::<char>::empty()
                    } else {
                        // no compaction: the one record went to the end of the
                        // active segment, every other segment file untouched
                        &&& final(self).disk_len() == old(self).disk_len() + encode_command(
                            CommandView::Put { key: key@, value: value@ },
                        ).len()
                        &&& final(self).pending() == old(self).pending() + encode_command(
                            CommandView::Put { key: key@, value: value@ },
                        ).len()
                        &&& final(self).current_gen() == old(self).current_gen()
                        &&& final(self).files().len() == old(self).files().len()
                        &&& forall|k: int| 0 <= k < old(self).files().len() - 1 ==> (
                        #[trigger] final(self).files()[k]) == old(self).files()[k]
                        &&& final(self).files().last().gen == old(self).files().last().gen
                        &&& final(self).files().last().data@ == old(self).files().last().data@ + encode_command(
                            CommandView::Put { key: key@, value: value@ },
                        )
                    }
                },
                Err(e) => e == KvError::Io && *final(self) == *old(self),
            },
    {
        let ghost cv = CommandView::Put { key: key@, value: value@ };
        // render once up front: whether this write triggers a compaction, and
        // whether that compaction has room, must be known while the store is
        // still untouched
        let record = Command::Put { key: key.clone(), value: value.clone() };
        proof {
            assert(record@ == cv);
        }
        let rec_len: usize = render_command(&record).len();
        let will_cross = rec_len as u64 >= COMPACTION_THRESHOLD || self.uncompacted + (
        rec_len as u64) >= COMPACTION_THRESHOLD;
        proof {
            assert(will_cross == (old(self).pending() + encode_command(cv).len()
                >= COMPACTION_THRESHOLD));
        }
        if will_cross && self.curr_gen > u64::MAX - 2 {
            return Err(KvError::Io);
        }
        self.put_entry(key, value);
        if will_cross {
            self.compact();
        } else {
            self.uncompacted = self.uncompacted + (rec_len as u64);
        }
        Ok(())
    }

    /// Delete `key`: append one tombstone record to the active segment and
    /// drop the key from the index.  A key that is absent is an error, and
    /// nothing is written.
    #[verifier::rlimit(100)]
    #[verifier::spinoff_prover]
    pub fn remove(&mut self, key: String) -> (r: Result<(), KvError>)
        requires
            old(self).wf(),
        ensures
            final(self).wf(),
            (r is Ok) <==> old(self)@.contains_key(key@),
            match r {
                Ok(()) => {
                    &&& final(self)@ == old(self)@.remove(key@)
                    &&& final(self).current_gen() == old(self).current_gen()
                    &&& final(self).pending() == old(self).pending()
                    &&& final(self).disk_len() == old(self).disk_len() + encode_command(
                        CommandView::Remove { key: key@ },
                    ).len()
                    &&& final(self).live_len() == old(self).live_len() - encode_command(
                        CommandView::Put { key: key@, value: old(self)@[key@] },
                    ).len()
                    // the one tombstone went to the end of the active
                    // segment, every other segment file untouched
                    &&& final(self).files().len() == old(self).files().len()
                    &&& forall|k: int| 0 <= k < old(self).files().len() - 1 ==> (
                    #[trigger] final(self).files()[k]) == old(self).files()[k]
                    &&& final(self).files().last().gen == old(self).files().last().gen
                    &&& final(self).files().last().data@ == old(self).files().last().data@
                        + encode_command(CommandView::Remove { key: key@ })
                },
                Err(e) => e == KvError::KeyNotFound && *final(self) == *old(self),
            },
    {
        let ghost k0 = key@;
        let ghost cv = CommandView::Remove { key: k0 };
        match find_entry(&self.index, &key) {
            None => {
                proof {
                    lemma_index_map_contains(self.index@, k0);
                }
                Err(KvError::KeyNotFound)
            },
            Some(t) => {
                let ghost segs0 = self.segments@;
                let ghost index0 = self.index@;
                let ghost m0 = index_map(index0);
                proof {
                    assert(index0[t as int].key@ == k0);
                    lemma_index_map_contains(index0, k0);
                }
                let cmd = Command::Remove { key };
                proof {
                    assert(cmd@ == cv);
                }
                let _written = self.append_active(&cmd, Ghost(m0.remove(k0)));
                let ghost segs1 = self.segments@;
                proof {
                    lemma_index_map_remove(self.index@, t as int);
                    lemma_remove_finish(segs0, segs1, index0, t as int);
                    lemma_entries_len_remove(index0, t as int);
                    // the dropped entry's record is the `Set` of the key's
                    // old value, so its length is that record's length
                    let e = index0[t as int];
                    lemma_index_map_get(index0, t as int);
                    assert(m0[k0] == e.value@);
                    assert(entry_ok(segs0, e));
                    let ks = choose|ks: int| 0 <= ks < segs0.len() && segs0[ks].gen
                        == e.pos.gen;
                    assert(entry_in_seg(segs0[ks], e));
                    assert(e.pos.len == encode_command(
                        CommandView::Put { key: k0, value: m0[k0] },
                    ).len()) by {
                        reveal(entry_in_seg);
                    }
                }
                self.index.remove(t);
                proof {
                    assert(self.index@ == index0.remove(t as int));
                    assert(self.wf_core());
                }
                Ok(())
            },
        }
    }
}


/// The `Set` records the index entries stand for, in entry order.
spec fn put_cmds(es: Seq<IndexEntry>) -> Seq<CommandView> {
    es.map_values(|e: IndexEntry| CommandView::Put { key: e.key@, value: e.value@ })
}


/// Records already written to the compaction segment stand unchanged when
/// more text is appended after them.
proof fn lemma_compact_entries_grow(ni0: Seq<IndexEntry>, cpre: Seq<char>, cnew: Seq<char>)
    requires
        cpre.len() <= cnew.len(),
        cnew.subrange(0, cpre.len() as int) == cpre,
        forall|u: int| 0 <= u < ni0.len() ==> (#[trigger] ni0[u]).pos.pos + ni0[u].pos.len
            <= cpre.len() && cpre.subrange(
            ni0[u].pos.pos as int,
            ni0[u].pos.pos + ni0[u].pos.len,
        ) == encode_command(CommandView::Put { key: ni0[u].key@, value: ni0[u].value@ }),
    ensures
        forall|u: int| 0 <= u < ni0.len() ==> (#[trigger] ni0[u]).pos.pos + ni0[u].pos.len
            <= cnew.len() && cnew.subrange(
            ni0[u].pos.pos as int,
            ni0[u].pos.pos + ni0[u].pos.len,
        ) == encode_command(CommandView::Put { key: ni0[u].key@, value: ni0[u].value@ }),
{
    assert forall|u: int| 0 <= u < ni0.len() implies (#[trigger] ni0[u]).pos.pos
        + ni0[u].pos.len <= cnew.len() && cnew.subrange(
        ni0[u].pos.pos as int,
        ni0[u].pos.pos + ni0[u].pos.len,
    ) == encode_command(CommandView::Put { key: ni0[u].key@, value: ni0[u].value@ }) by {
        let a = ni0[u].pos.pos as int;
        let b = a + ni0[u].pos.len;
        assert(cnew.subrange(a, b) =~= cpre.subrange(a, b)) by {
            assert forall|w: int| 0 <= w < b - a implies #[trigger] cnew.subrange(a, b)[w]
                == cpre.subrange(a, b)[w] by {
                assert(cnew.subrange(0, cpre.len() as int)[a + w] == cpre[a + w]);
            }
        }
    }
}

/// One live record copied to the end of the compaction segment: the
/// invariants of the rewrite, carried one entry further.
proof fn lemma_compact_step(ni0: Seq<IndexEntry>, entry: IndexEntry, cpre: Seq<char>, cnew: Seq<
    char>)
    requires
        records(cpre) == Some(put_cmds(ni0)),
        apply_commands(Map::empty(), put_cmds(ni0)) == Some(index_map(ni0)),
        cpre.len() == entries_len(ni0),
        forall|u: int| 0 <= u < ni0.len() ==> (#[trigger] ni0[u]).pos.pos + ni0[u].pos.len
            <= cpre.len() && cpre.subrange(
            ni0[u].pos.pos as int,
            ni0[u].pos.pos + ni0[u].pos.len,
        ) == encode_command(CommandView::Put { key: ni0[u].key@, value: ni0[u].value@ }),
        cnew == cpre + encode_command(CommandView::Put { key: entry.key@, value: entry.value@ }),
        entry.pos.pos == cpre.len(),
        entry.pos.len == encode_command(
            CommandView::Put { key: entry.key@, value: entry.value@ },
        ).len(),
    ensures
        records(cnew) == Some(put_cmds(ni0.push(entry))),
        apply_commands(Map::empty(), put_cmds(ni0.push(entry))) == Some(
            index_map(ni0.push(entry)),
        ),
        cnew.len() == entries_len(ni0.push(entry)),
        forall|u: int| 0 <= u < ni0.push(entry).len() ==> (#[trigger] ni0.push(
            entry,
        )[u]).pos.pos + ni0.push(entry)[u].pos.len <= cnew.len() && cnew.subrange(
            ni0.push(entry)[u].pos.pos as int,
            ni0.push(entry)[u].pos.pos + ni0.push(entry)[u].pos.len,
        ) == encode_command(
            CommandView::Put {
                key: ni0.push(entry)[u].key@,
                value: ni0.push(entry)[u].value@,
            },
        ),
{
    let cv = CommandView::Put { key: entry.key@, value: entry.value@ };
    let ni1 = ni0.push(entry);
    lemma_records_append(cpre, cv);
    assert(put_cmds(ni1) =~= put_cmds(ni0).push(cv));
    lemma_apply_commands_push(Map::empty(), put_cmds(ni0), cv);
    lemma_index_map_push(ni0, entry);
    assert(ni1.drop_last() =~= ni0);
    assert(entries_len(ni1) == entries_len(ni0) + entry.pos.len);
    assert(cnew.subrange(0, cpre.len() as int) =~= cpre);
    lemma_compact_entries_grow(ni0, cpre, cnew);
    assert(cnew.subrange(entry.pos.pos as int, entry.pos.pos + entry.pos.len) =~= encode_command(
        cv,
    ));
    assert forall|u: int| 0 <= u < ni1.len() implies (#[trigger] ni1[u]).pos.pos
        + ni1[u].pos.len <= cnew.len() && cnew.subrange(
        ni1[u].pos.pos as int,
        ni1[u].pos.pos + ni1[u].pos.len,
    ) == encode_command(CommandView::Put { key: ni1[u].key@, value: ni1[u].value@ }) by {
        if u < ni0.len() {
            assert(ni1[u] == ni0[u]);
        } else {
            assert(ni1[u] == entry);
        }
    }
}

/// What holds of the two fresh segments a compaction leaves behind.
proof fn lemma_compacted_state(segs: Seq<Segment>, ni: Seq<IndexEntry>, cgen: u64, agen: u64)
    requires
        cgen < agen,
        segs.len() == 2,
        segs[0].gen == cgen,
        segs[1].gen == agen,
        segs[1].data@.len() == 0,
        records(segs[0].data@) == Some(put_cmds(ni)),
        apply_commands(Map::empty(), put_cmds(ni)) == Some(index_map(ni)),
        forall|u: int| 0 <= u < ni.len() ==> (#[trigger] ni[u]).pos.gen == cgen
            && ni[u].pos.pos + ni[u].pos.len <= segs[0].data@.len()
            && segs[0].data@.subrange(
            ni[u].pos.pos as int,
            ni[u].pos.pos + ni[u].pos.len,
        ) == encode_command(CommandView::Put { key: ni[u].key@, value: ni[u].value@ }),
    ensures
        gens_ascending(segs),
        segs.last().gen == agen,
        forall|si: int| 0 <= si < segs.len() ==> records(
            (#[trigger] segs[si]).data@,
        ) is Some,
        replay(Map::empty(), seg_datas(segs)) == Some(index_map(ni)),
        forall|w: int| 0 <= w < ni.len() ==> entry_ok(segs, #[trigger] ni[w]),
        total_len(seg_datas(segs)) == segs[0].data@.len(),
{
    let cd = segs[0].data@;
    let im = index_map(ni);
    assert(gens_ascending(segs)) by {
        assert forall|i: int, j: int| 0 <= i < j < 2 implies segs[i].gen < segs[j].gen by {
            assert(i == 0 && j == 1);
        }
    }
    crate::codec::lemma_records_empty();
    assert(segs[1].data@ =~= Seq::<char>::empty());
    assert forall|si: int| 0 <= si < segs.len() implies records(
        (#[trigger] segs[si]).data@,
    ) is Some by {
        if si == 0 {
            assert(records(cd) == Some(put_cmds(ni)));
        }
    }
    let ds = seg_datas(segs);
    assert(ds.len() == 2 && ds[0] == cd && ds[1] =~= Seq::<char>::empty());
    assert(replay_segment(Map::empty(), ds[0]) == Some(im));
    assert(apply_commands(im, Seq::<CommandView>::empty()) == Some(im));
    assert(replay_segment(im, ds[1]) == Some(im));
    assert(ds.drop_first().drop_first() =~= Seq::<Seq<char>>::empty());
    assert(replay(im, ds.drop_first().drop_first()) == Some(im));
    assert(ds.drop_first()[0] == ds[1]);
    assert(replay(im, ds.drop_first()) == Some(im));
    assert(replay(Map::empty(), ds) == Some(im));
    assert forall|w: int| 0 <= w < ni.len() implies entry_ok(segs, #[trigger] ni[w]) by {
        assert(segs[0].gen == ni[w].pos.gen);
        assert(has_gen(segs, ni[w].pos.gen));
        assert forall|si: int| 0 <= si < segs.len() && (#[trigger] segs[si]).gen
            == ni[w].pos.gen implies entry_in_seg(segs[si], ni[w]) by {
            reveal(entry_in_seg);
            assert(si == 0);
        }
    }
    assert(ds.drop_last() =~= seq![cd]);
    assert(seq![cd].drop_last() =~= Seq::<Seq<char>>::empty());
    assert(total_len(Seq::<Seq<char>>::empty()) == 0);
    assert(total_len(seq![cd]) == cd.len());
    assert(total_len(ds) == cd.len());
}

/// Dropping one entry from a valid index over grown segments: the rest
/// stays valid, keys stay distinct.
proof fn lemma_remove_finish(
    segs0: Seq<Segment>,
    segs1: Seq<Segment>,
    index0: Seq<IndexEntry>,
    t: int,
)
    requires
        keys_distinct(index0),
        0 <= t < index0.len(),
        forall|u: int| 0 <= u < index0.len() ==> entry_ok(segs0, #[trigger] index0[u]),
        segs1.len() == segs0.len(),
        forall|si: int| 0 <= si < segs0.len() ==> (#[trigger] segs1[si]).gen == segs0[si].gen,
        forall|si: int| 0 <= si < segs0.len() ==> segs0[si].data@.len() <= (
        #[trigger] segs1[si]).data@.len(),
        forall|si: int| 0 <= si < segs0.len() ==> (#[trigger] segs1[si]).data@.subrange(
            0,
            segs0[si].data@.len() as int,
        ) == segs0[si].data@,
    ensures
        keys_distinct(index0.remove(t)),
        forall|u: int| 0 <= u < index0.remove(t).len() ==> entry_ok(
            segs1,
            #[trigger] index0.remove(t)[u],
        ),
{
    lemma_keys_distinct_remove(index0, t);
    assert forall|u: int| 0 <= u < index0.remove(t).len() implies entry_ok(
        segs0,
        #[trigger] index0.remove(t)[u],
    ) by {
        if u < t {
            assert(index0.remove(t)[u] == index0[u]);
        } else {
            assert(index0.remove(t)[u] == index0[u + 1]);
        }
    }
    lemma_entries_ok_grow_all(segs0, segs1, index0.remove(t));
}

impl KvStore {
    /// Rewrite the live records into a fresh segment, open a new active
    /// segment above it, and drop every older segment.  Two fresh
    /// generations keep recovery order: records written after the
    /// compaction land in a segment above the compacted data.
    #[verifier::rlimit(100)]
    #[verifier::spinoff_prover]
    fn compact(&mut self)
        requires
            old(self).wf_core(),
            old(self).curr_gen <= u64::MAX - 2,
        ensures
            final(self).wf(),
            final(self)@ == old(self)@,
            final(self).pending() == 0,
            final(self).disk_len() == final(self).live_len(),
            final(self).live_len() == old(self).live_len(),
            final(self).current_gen() == old(self).current_gen() + 2,
            final(self).segments@.len() == 2,
            final(self).segments@[0].gen == old(self).curr_gen + 1,
            final(self).segments@[1].gen == old(self).curr_gen + 2,
            final(self).segments@[1].data@ == Seq::<char>::empty(),
    {
        let cgen = self.curr_gen + 1;
        let agen = self.curr_gen + 2;
        let mut cdata: Vec<char> = Vec::new();
        let mut new_index: Vec<IndexEntry> = Vec::new();
        let n = self.index.len();
        let mut t: usize = 0;
        proof {
            crate::codec::lemma_records_empty();
            assert(cdata@ =~= Seq::<char>::empty());
            assert(put_cmds(new_index@) =~= Seq::<CommandView>::empty());
            assert(records(cdata@) == Some(put_cmds(new_index@)));
            assert(index_map(new_index@) =~= Map::<Seq<char>, Seq<char>>::empty());
            assert(apply_commands(Map::empty(), put_cmds(new_index@)) == Some(
                index_map(new_index@),
            ));
        }
        while t < n
            invariant
                t <= n,
                n == self.index@.len(),
                self.wf_core(),
                self.curr_gen <= u64::MAX - 2,
                cgen == self.curr_gen + 1,
                agen == self.curr_gen + 2,
                new_index@.len() == t,
                forall|u: int| 0 <= u < t ==> (#[trigger] new_index@[u]).key@
                    == self.index@[u].key@ && new_index@[u].value@ == self.index@[u].value@
                    && new_index@[u].pos.len == self.index@[u].pos.len && new_index@[u].pos.gen
                    == cgen,
                forall|u: int| 0 <= u < t ==> (#[trigger] new_index@[u]).pos.pos
                    + new_index@[u].pos.len <= cdata@.len() && cdata@.subrange(
                    new_index@[u].pos.pos as int,
                    new_index@[u].pos.pos + new_index@[u].pos.len,
                ) == encode_command(
                    CommandView::Put { key: new_index@[u].key@, value: new_index@[u].value@ },
                ),
                records(cdata@) == Some(put_cmds(new_index@)),
                apply_commands(Map::empty(), put_cmds(new_index@)) == Some(index_map(new_index@)),
                cdata@.len() == entries_len(new_index@),
            decreases n - t,
        {
            let e_gen = self.index[t].pos.gen;
            let e_pos = self.index[t].pos.pos;
            let e_len = self.index[t].pos.len;
            proof {
                assert(entry_ok(self.segments@, self.index@[t as int]));
            }
            let si = match find_segment(&self.segments, e_gen) {
                Some(si) => si,
                None => {
                    proof {
                        assert(false);
                    }
                    0
                },
            };
            proof {
                reveal(entry_in_seg);
                assert(entry_in_seg(self.segments@[si as int], self.index@[t as int]));
            }
            let seg_len = self.segments[si].data.len();
            let p: usize = e_pos as usize;
            let l: usize = e_len as usize;
            let new_pos: usize = cdata.len();
            let ghost cpre = cdata@;
            let ghost ni0 = new_index@;
            let mut u: usize = 0;
            while u < l
                invariant
                    u <= l,
                    p + l <= seg_len,
                    si < self.segments@.len(),
                    seg_len == self.segments@[si as int].data@.len(),
                    cdata@ == cpre + self.segments@[si as int].data@.subrange(
                        p as int,
                        p + u,
                    ),
                decreases l - u,
            {
                let c = self.segments[si].data[p + u];
                proof {
                    assert(self.segments@[si as int].data@.subrange(p as int, p + (u + 1) as int)
                        =~= self.segments@[si as int].data@.subrange(p as int, p + u).push(
                        self.segments@[si as int].data@[p + u],
                    ));
                }
                cdata.push(c);
                u = u + 1;
            }
            let ghost e0 = self.index@[t as int];
            let ghost cv = CommandView::Put { key: e0.key@, value: e0.value@ };
            proof {
                assert(self.segments@[si as int].data@.subrange(p as int, p + l) == encode_command(
                    cv,
                ));
                assert(cdata@ == cpre + encode_command(cv));
            }
            let entry = IndexEntry {
                key: self.index[t].key.clone(),
                pos: CommandPos { gen: cgen, pos: new_pos as u64, len: e_len },
                value: self.index[t].value,
            };
            proof {
                assert(entry.key@ == e0.key@ && entry.value@ == e0.value@);
                lemma_compact_step(ni0, entry, cpre, cdata@);
            }
            new_index.push(entry);
            proof {
                assert(new_index@ == ni0.push(entry));
                assert(forall|w: int| 0 <= w < new_index@.len() - 1 ==> (
                #[trigger] new_index@[w]) == ni0[w]);
                assert(new_index@[new_index@.len() - 1] == entry);
            }
            t = t + 1;
        }
        proof {
            assert forall|i: int, j: int| 0 <= i < j < new_index@.len() implies new_index@[
            i].key@ != new_index@[j].key@ by {
                assert(new_index@[i].key@ == self.index@[i].key@);
                assert(new_index@[j].key@ == self.index@[j].key@);
            }
            lemma_index_map_congruent(new_index@, self.index@);
        }
        let ghost ni = new_index@;
        let ghost cd = cdata@;
        let ghost im = index_map(ni);
        let mut new_segments: Vec<Segment> = Vec::new();
        new_segments.push(Segment { gen: cgen, data: cdata });
        let empty_data: Vec<char> = Vec::new();
        new_segments.push(Segment { gen: agen, data: empty_data });
        self.segments = new_segments;
        self.index = new_index;
        self.curr_gen = agen;
        self.uncompacted = 0;
        proof {
            let segs = self.segments@;
            assert(segs.len() == 2);
            assert(segs[0].gen == cgen && segs[0].data@ == cd);
            assert(segs[1].gen == agen && segs[1].data@.len() == 0);
            lemma_compacted_state(segs, ni, cgen, agen);
            assert(forall|w: int| 0 <= w < self.index@.len() ==> (#[trigger] self.index@[w])
                == ni[w]);
            assert(self.wf_core());
            lemma_entries_len_congruent(ni, old(self).index@);
        }
    }
}


/// The contents a directory's segment files replay to, in ascending
/// generation order; `None` when a segment is malformed or a tombstone
/// names an absent key.
pub open spec fn disk_map(files: Seq<Segment>) -> Option<Map<Seq<char>, Seq<char>>> {
    replay(Map::empty(), seg_datas(sort_by_gen(files)))
}

/// One record consumed from a segment: the continuation bookkeeping of the
/// replay, carried one record further.
proof fn lemma_stream_step(
    data: Seq<char>,
    pos: int,
    j: int,
    cv: CommandView,
    done: Seq<CommandView>,
    m_seg: Map<Seq<char>, Seq<char>>,
    m_now: Map<Seq<char>, Seq<char>>,
    m_next: Map<Seq<char>, Seq<char>>,
)
    requires
        records_from(data, 0) == (match records_from(data, pos) {
            Some(cs) => Some(done + cs),
            None => None::<Seq<CommandView>>,
        }),
        parse_command(data, pos) == Some((cv, j)),
        0 <= pos < j <= data.len(),
        apply_commands(m_seg, done) == Some(m_now),
        apply_command(m_now, cv) == Some(m_next),
    ensures
        records_from(data, 0) == (match records_from(data, j) {
            Some(cs) => Some(done.push(cv) + cs),
            None => None::<Seq<CommandView>>,
        }),
        apply_commands(m_seg, done.push(cv)) == Some(m_next),
{
    if let Some(cs2) = records_from(data, j) {
        assert(records_from(data, pos) == Some(seq![cv] + cs2));
        assert(done + (seq![cv] + cs2) =~= done.push(cv) + cs2);
    }
    lemma_apply_commands_push(m_seg, done, cv);
}

/// A record that cannot be applied makes the whole segment a replay error.
proof fn lemma_stream_fail(
    data: Seq<char>,
    pos: int,
    j: int,
    cv: CommandView,
    done: Seq<CommandView>,
    m_seg: Map<Seq<char>, Seq<char>>,
    m_now: Map<Seq<char>, Seq<char>>,
)
    requires
        records_from(data, 0) == (match records_from(data, pos) {
            Some(cs) => Some(done + cs),
            None => None::<Seq<CommandView>>,
        }),
        parse_command(data, pos) == Some((cv, j)),
        0 <= pos < j <= data.len(),
        apply_commands(m_seg, done) == Some(m_now),
        apply_command(m_now, cv) is None,
    ensures
        replay_segment(m_seg, data) is None,
{
    if let Some(cs2) = records_from(data, j) {
        assert(records_from(data, pos) == Some(seq![cv] + cs2));
        assert(records(data) == Some(done + (seq![cv] + cs2)));
        lemma_apply_commands_concat(m_seg, done, seq![cv] + cs2);
        assert((seq![cv] + cs2)[0] == cv);
        assert(apply_commands(m_now, seq![cv] + cs2) is None);
    }
}

/// A failing segment makes the whole disk a replay error.
proof fn lemma_disk_fail(sd: Seq<Seq<char>>, si: int, m_seg: Map<Seq<char>, Seq<char>>)
    requires
        0 <= si < sd.len(),
        replay(Map::empty(), sd.subrange(0, si)) == Some(m_seg),
        replay_segment(m_seg, sd[si]) is None,
    ensures
        replay(Map::empty(), sd) is None,
{
    let a = sd.subrange(0, si);
    let b = sd.subrange(si, sd.len() as int);
    assert(sd =~= a + b);
    lemma_replay_concat(Map::empty(), a, b);
    assert(b[0] == sd[si]);
    assert(b.len() > 0);
    assert(replay(m_seg, b) is None);
}

/// Each segment's own text only is read for an entry: with ascending
/// generations the matching segment is unique.
proof fn lemma_entry_replay_new(segs: Seq<Segment>, si: int, e: IndexEntry)
    requires
        gens_ascending(segs),
        0 <= si < segs.len(),
        segs[si].gen == e.pos.gen,
        e.pos.pos + e.pos.len <= segs[si].data@.len(),
        segs[si].data@.subrange(e.pos.pos as int, e.pos.pos + e.pos.len) == encode_command(
            CommandView::Put { key: e.key@, value: e.value@ },
        ),
    ensures
        entry_ok(segs, e),
{
    assert(has_gen(segs, e.pos.gen));
    assert forall|sj: int| 0 <= sj < segs.len() && (#[trigger] segs[sj]).gen == e.pos.gen
        implies entry_in_seg(segs[sj], e) by {
        reveal(entry_in_seg);
        if sj < si {
            assert(segs[sj].gen < segs[si].gen);
        } else if sj > si {
            assert(segs[si].gen < segs[sj].gen);
        }
        assert(sj == si);
    }
}

/// Unchanged segments trivially satisfy the growth conditions.
proof fn lemma_segs_growth_refl(segs: Seq<Segment>)
    ensures
        forall|si: int| 0 <= si < segs.len() ==> (#[trigger] segs[si]).data@.subrange(
            0,
            segs[si].data@.len() as int,
        ) == segs[si].data@,
{
    assert forall|si: int| 0 <= si < segs.len() implies (#[trigger] segs[si]).data@.subrange(
        0,
        segs[si].data@.len() as int,
    ) == segs[si].data@ by {
        assert(segs[si].data@.subrange(0, segs[si].data@.len() as int) =~= segs[si].data@);
    }
}

/// Entries stay valid when a fresh, higher-generation segment is appended.
proof fn lemma_entries_ok_extend(
    segs0: Seq<Segment>,
    segs1: Seq<Segment>,
    es: Seq<IndexEntry>,
    curr: u64,
)
    requires
        segs1.len() == segs0.len() + 1,
        forall|k: int| 0 <= k < segs0.len() ==> segs1[k] == segs0[k],
        segs1.last().gen == curr,
        forall|k: int| 0 <= k < segs0.len() ==> (#[trigger] segs0[k]).gen < curr,
        forall|t: int| 0 <= t < es.len() ==> entry_ok(segs0, #[trigger] es[t]),
    ensures
        forall|t: int| 0 <= t < es.len() ==> entry_ok(segs1, #[trigger] es[t]),
{
    assert forall|t: int| 0 <= t < es.len() implies entry_ok(segs1, #[trigger] es[t]) by {
        let e = es[t];
        let k = choose|k: int| 0 <= k < segs0.len() && segs0[k].gen == e.pos.gen;
        assert(segs1[k].gen == e.pos.gen);
        assert(has_gen(segs1, e.pos.gen));
        assert forall|si: int| 0 <= si < segs1.len() && (#[trigger] segs1[si]).gen == e.pos.gen
            implies entry_in_seg(segs1[si], e) by {
            if si < segs0.len() {
                assert(segs1[si] == segs0[si]);
            } else {
                assert(segs0[k].gen < curr);
                assert(false);
            }
        }
    }
}

impl KvStore {
    /// Open a store over the segment files found in a directory, in any
    /// order.  Recovery replays them in ascending generation order to
    /// rebuild the index, then opens a fresh active segment one generation
    /// above the highest found.  A malformed record, or a tombstone for a
    /// key that is absent at its point of the replay, is a replay error;
    /// a generation with no room above it cannot host a fresh segment.
    #[verifier::rlimit(100)]
    #[verifier::spinoff_prover]
    pub fn open(files: Vec<Segment>) -> (r: Result<KvStore, KvError>)
        requires
            gens_distinct(files@),
        ensures
            (r is Ok) <==> (disk_map(files@) is Some && !has_gen(files@, u64::MAX)),
            match r {
                Ok(store) => {
                    &&& store.wf()
                    &&& Some(store@) == disk_map(files@)
                    &&& forall|t: int| 0 <= t < files@.len() ==> store.current_gen() > (
                    #[trigger] files@[t]).gen
                    &&& store.current_gen() as int == (if files@.len() == 0 {
                        1int
                    } else {
                        sort_by_gen(files@).last().gen + 1
                    })
                    &&& store.pending() == 0
                    // the given files stand as they were, in ascending
                    // generation order, and one fresh empty active segment
                    // was opened above them
                    &&& store.files().len() == files@.len() + 1
                    &&& store.files().subrange(0, files@.len() as int) == sort_by_gen(files@)
                    &&& store.files().last().gen == store.current_gen()
                    &&& store.files().last().data@ == Seq::<char>::empty()
                    &&& (files@.len() == 0 ==> store.live_len() == 0)
                },
                Err(e) => (e == KvError::Io && has_gen(files@, u64::MAX)) || (e == KvError::Serde
                    && !has_gen(files@, u64::MAX) && disk_map(files@) is None),
            },
    {
        let sorted = sort_segments(files);
        proof {
            lemma_sort_by_gen_props(files@);
        }
        let ns = sorted.len();
        if ns > 0 && sorted[ns - 1].gen == u64::MAX {
            proof {
                assert(has_gen(sorted@, u64::MAX));
            }
            return Err(KvError::Io);
        }
        proof {
            if has_gen(files@, u64::MAX) {
                let k = choose|k: int| 0 <= k < sorted@.len() && sorted@[k].gen == u64::MAX;
                if k < sorted@.len() - 1 {
                    assert(sorted@[k].gen < sorted@[sorted@.len() - 1].gen);
                }
                assert(false);
            }
        }
        let ghost sd = seg_datas(sorted@);
        let mut index: Vec<IndexEntry> = Vec::new();
        let mut si: usize = 0;
        proof {
            assert(sd.subrange(0, 0) =~= Seq::<Seq<char>>::empty());
            assert(index_map(index@) =~= Map::<Seq<char>, Seq<char>>::empty());
        }
        while si < ns
            invariant
                si <= ns,
                ns == sorted@.len(),
                sorted@ == sort_by_gen(files@),
                gens_ascending(sorted@),
                sd == seg_datas(sorted@),
                replay(Map::empty(), sd.subrange(0, si as int)) == Some(index_map(index@)),
                keys_distinct(index@),
                forall|t: int| 0 <= t < index@.len() ==> entry_ok(
                    sorted@,
                    #[trigger] index@[t],
                ),
                forall|k: int| 0 <= k < si ==> records((#[trigger] sorted@[k]).data@) is Some,
                !has_gen(files@, u64::MAX),
            decreases ns - si,
        {
            let ghost m_seg = index_map(index@);
            let gen = sorted[si].gen;
            let n = sorted[si].data.len();
            let ghost data = sorted@[si as int].data@;
            let mut pos: usize = 0;
            let ghost mut done: Seq<CommandView> = Seq::empty();
            proof {
                if let Some(cs) = records_from(data, 0) {
                    assert(done + cs =~= cs);
                }
            }
            while pos < n
                invariant
                    pos <= n,
                    si < ns,
                    ns == sorted@.len(),
                    sorted@ == sort_by_gen(files@),
                    gens_ascending(sorted@),
                    sd == seg_datas(sorted@),
                    data == sorted@[si as int].data@,
                    n == data.len(),
                    gen == sorted@[si as int].gen,
                    replay(Map::empty(), sd.subrange(0, si as int)) == Some(m_seg),
                    records_from(data, 0) == (match records_from(data, pos as int) {
                        Some(cs) => Some(done + cs),
                        None => None::<Seq<CommandView>>,
                    }),
                    apply_commands(m_seg, done) == Some(index_map(index@)),
                    keys_distinct(index@),
                    forall|t: int| 0 <= t < index@.len() ==> entry_ok(
                        sorted@,
                        #[trigger] index@[t],
                    ),
                    forall|k: int| 0 <= k < si ==> records(
                        (#[trigger] sorted@[k]).data@,
                    ) is Some,
                    !has_gen(files@, u64::MAX),
                decreases n - pos,
            {
                let ghost m_now = index_map(index@);
                match parse_record(&sorted[si].data, pos) {
                    None => {
                        proof {
                            assert(records_from(data, pos as int) is None);
                            assert(records(data) is None);
                            assert(replay_segment(m_seg, data) is None);
                            assert(sd[si as int] == data);
                            lemma_disk_fail(sd, si as int, m_seg);
                        }
                        return Err(KvError::Serde);
                    },
                    Some((cmd, newpos)) => {
                        proof {
                            lemma_parse_command_canonical(data, pos as int);
                        }
                        let ghost cv = cmd@;
                        match cmd {
                            Command::Put { key, value } => {
                                let ghost v0 = value@;
                                let entry = IndexEntry {
                                    key,
                                    pos: CommandPos {
                                        gen,
                                        pos: pos as u64,
                                        len: (newpos - pos) as u64,
                                    },
                                    value: Ghost(v0),
                                };
                                match find_entry(&index, &entry.key) {
                                    Some(t2) => {
                                        proof {
                                            lemma_index_map_remove(index@, t2 as int);
                                            lemma_segs_growth_refl(sorted@);
                                            lemma_remove_finish(
                                                sorted@,
                                                sorted@,
                                                index@,
                                                t2 as int,
                                            );
                                        }
                                        index.remove(t2);
                                        proof {
                                            assert(index_map(index@) =~= m_now.remove(
                                                entry.key@,
                                            ));
                                        }
                                    },
                                    None => {
                                        proof {
                                            lemma_index_map_contains(index@, entry.key@);
                                        }
                                    },
                                }
                                let ghost index_mid = index@;
                                proof {
                                    assert(index_map(index_mid).insert(entry.key@, v0)
                                        =~= m_now.insert(entry.key@, v0));
                                    lemma_entry_replay_new(sorted@, si as int, entry);
                                    lemma_set_finish(sorted@, index_mid, entry);
                                    lemma_index_map_push(index_mid, entry);
                                }
                                index.push(entry);
                                proof {
                                    assert(index@ == index_mid.push(entry));
                                    lemma_stream_step(
                                        data,
                                        pos as int,
                                        newpos as int,
                                        cv,
                                        done,
                                        m_seg,
                                        m_now,
                                        m_now.insert(entry.key@, v0),
                                    );
                                    done = done.push(cv);
                                }
                            },
                            Command::Remove { key } => {
                                match find_entry(&index, &key) {
                                    None => {
                                        proof {
                                            lemma_index_map_contains(index@, key@);
                                            assert(apply_command(m_now, cv) is None);
                                            lemma_stream_fail(
                                                data,
                                                pos as int,
                                                newpos as int,
                                                cv,
                                                done,
                                                m_seg,
                                                m_now,
                                            );
                                            assert(sd[si as int] == data);
                                            lemma_disk_fail(sd, si as int, m_seg);
                                        }
                                        return Err(KvError::Serde);
                                    },
                                    Some(t2) => {
                                        let ghost index0 = index@;
                                        proof {
                                            assert(index0[t2 as int].key@ == key@);
                                            lemma_index_map_contains(index0, key@);
                                            lemma_index_map_remove(index0, t2 as int);
                                            lemma_segs_growth_refl(sorted@);
                                            lemma_remove_finish(
                                                sorted@,
                                                sorted@,
                                                index0,
                                                t2 as int,
                                            );
                                        }
                                        index.remove(t2);
                                        proof {
                                            assert(index_map(index@) =~= m_now.remove(key@));
                                            lemma_stream_step(
                                                data,
                                                pos as int,
                                                newpos as int,
                                                cv,
                                                done,
                                                m_seg,
                                                m_now,
                                                m_now.remove(key@),
                                            );
                                            done = done.push(cv);
                                        }
                                    },
                                }
                            },
                        }
                        pos = newpos;
                    },
                }
            }
            proof {
                assert(records_from(data, n as int) == Some(Seq::<CommandView>::empty()));
                assert(done + Seq::<CommandView>::empty() =~= done);
                assert(records(data) == Some(done));
                assert(replay_segment(m_seg, data) == Some(index_map(index@)));
                assert(sd.subrange(0, si + 1) =~= sd.subrange(0, si as int).push(data));
                lemma_replay_push(Map::empty(), sd.subrange(0, si as int), data);
            }
            si = si + 1;
        }
        proof {
            assert(sd.subrange(0, ns as int) =~= sd);
        }
        let curr: u64 = if ns > 0 {
            sorted[ns - 1].gen + 1
        } else {
            1
        };
        proof {
            assert(forall|k: int| 0 <= k < sorted@.len() ==> (#[trigger] sorted@[k].gen)
                < curr) by {
                assert(forall|k: int| 0 <= k < sorted@.len() - 1 ==> (#[trigger] sorted@[k].gen)
                    < sorted@[sorted@.len() - 1].gen);
            }
        }
        let ghost sorted0 = sorted@;
        let ghost index_final = index@;
        let mut segments = sorted;
        let empty_data: Vec<char> = Vec::new();
        segments.push(Segment { gen: curr, data: empty_data });
        let store = KvStore { segments, index, curr_gen: curr, uncompacted: 0 };
        proof {
            let segs1 = store.segments@;
            assert(segs1.last().gen == curr);
            assert(segs1.last().data@ =~= Seq::<char>::empty());
            assert(gens_ascending(segs1)) by {
                assert forall|i: int, j: int| 0 <= i < j < segs1.len() implies segs1[i].gen
                    < segs1[j].gen by {
                    if j < segs1.len() - 1 {
                        assert(segs1[i] == sorted0[i] && segs1[j] == sorted0[j]);
                    } else {
                        assert(segs1[i] == sorted0[i]);
                    }
                }
            }
            crate::codec::lemma_records_empty();
            assert forall|k: int| 0 <= k < segs1.len() implies records(
                (#[trigger] segs1[k]).data@,
            ) is Some by {
                if k < segs1.len() - 1 {
                    assert(segs1[k] == sorted0[k]);
                }
            }
            let ds1 = seg_datas(segs1);
            assert(ds1 =~= sd.push(segs1.last().data@));
            lemma_replay_push(Map::empty(), sd, segs1.last().data@);
            assert(records(segs1.last().data@) == Some(Seq::<CommandView>::empty()));
            assert(apply_commands(index_map(index_final), Seq::<CommandView>::empty()) == Some(
                index_map(index_final),
            ));
            assert(replay_segment(index_map(index_final), segs1.last().data@) == Some(
                index_map(index_final),
            ));
            assert(replay(Map::empty(), ds1) == Some(index_map(index_final)));
            lemma_entries_ok_extend(sorted0, segs1, index_final, curr);
            assert(store.wf_core());
            assert(segs1.subrange(0, sorted0.len() as int) =~= sorted0);
            if files@.len() == 0 {
                assert(index_final =~= Seq::<IndexEntry>::empty());
                assert(entries_len(Seq::<IndexEntry>::empty()) == 0);
            }
            assert forall|t: int| 0 <= t < files@.len() implies store.current_gen() > (
            #[trigger] files@[t]).gen by {
                assert(files@[t].gen == files@[t].gen);
                assert(has_gen(files@, files@[t].gen));
                assert(has_gen(sorted0, files@[t].gen));
                let k = choose|k: int| 0 <= k < sorted0.len() && sorted0[k].gen == files@[
                t].gen;
                assert(sorted0[k].gen < curr);
            }
        }
        Ok(store)
    }
}


impl KvStore {
    /// The segment files as they stand, for a caller that mirrors them to
    /// storage.
    pub fn segments(&self) -> (r: &Vec<Segment>)
        ensures
            r@ == self.files(),
    {
        &self.segments
    }

    /// Close the store and hand its segment files back.  Reopening a
    /// directory holding exactly these files restores the same contents
    /// (see [`lemma_durability`] and the contract of [`KvStore::open`]).
    pub fn into_files(self) -> (r: Vec<Segment>)
        ensures
            r@ == self.files(),
    {
        let KvStore { segments, .. } = self;
        segments
    }
}

/// Durability: the segment files of a well-formed store replay to exactly
/// its logical contents.  With [`lemma_generations`] (the generations are
/// distinct, so the files satisfy `open`'s precondition) and the contract
/// of [`KvStore::open`] (which succeeds exactly when the files replay and
/// no generation is `u64::MAX`, and returns the replayed contents),
/// closing a store and reopening its files preserves the result of `get`
/// for every key.  The one reservation is the machine limit the second
/// clause names: a store whose active generation has reached `u64::MAX`
/// leaves no room for a fresh segment and cannot be reopened.
pub proof fn lemma_durability(s: &KvStore)
    requires
        s.wf(),
    ensures
        disk_map(s.files()) == Some(s@),
        s.current_gen() < u64::MAX ==> !has_gen(s.files(), u64::MAX),
{
    lemma_sort_by_gen_of_sorted(s.files());
    if s.current_gen() < u64::MAX {
        lemma_generations(s);
        if has_gen(s.files(), u64::MAX) {
            let k = choose|k: int| 0 <= k < s.files().len() && s.files()[k].gen == u64::MAX;
            assert(s.files()[k].gen <= s.current_gen());
        }
    }
}

/// Read-your-writes: `set` leaves the contents at `insert(k, v)`, and
/// `get` returns exactly the contents at `k`; so when `set(k, v)` is the
/// most recent write on `k`, `get(k)` yields `Some(v)`.
pub proof fn lemma_read_your_writes(m: Map<Seq<char>, Seq<char>>, k: Seq<char>, v: Seq<char>)
    ensures
        m.insert(k, v).contains_key(k),
        m.insert(k, v)[k] == v,
{
}

/// Tombstone: a successful `remove` leaves the contents at `remove(k)`,
/// where `k` is absent; so when `remove(k)` is the most recent write on
/// `k`, `get(k)` yields `None`.
pub proof fn lemma_tombstone(m: Map<Seq<char>, Seq<char>>, k: Seq<char>)
    ensures
        !m.remove(k).contains_key(k),
{
}

/// Generation monotonicity: no two segment files share a generation, and
/// the active segment carries the greatest one.  With the contract of
/// [`KvStore::open`], which hands back a generation strictly above every
/// file it was given, generations grow over the lifetime of a directory
/// across opens.
pub proof fn lemma_generations(s: &KvStore)
    requires
        s.wf(),
    ensures
        gens_distinct(s.files()),
        has_gen(s.files(), s.current_gen()),
        forall|t: int| 0 <= t < s.files().len() ==> (#[trigger] s.files()[t]).gen
            <= s.current_gen(),
{
    let segs = s.files();
    assert(segs[segs.len() - 1].gen == s.current_gen());
    assert(has_gen(segs, s.current_gen()));
    assert forall|t: int| 0 <= t < segs.len() implies (#[trigger] segs[t]).gen
        <= s.current_gen() by {
        if t < segs.len() - 1 {
            assert(segs[t].gen < segs[segs.len() - 1].gen);
        }
    }
}

} // verus!
