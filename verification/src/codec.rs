//! The on-disk record format.
//!
//! A segment file is a concatenation of records, one per mutation.  Each
//! record is a JSON object with an external tag, `{"Set":{"key":K,"value":V}}`
//! or `{"Remove":{"key":K}}`, where `K` and `V` are JSON string literals.
//! The encoder escapes `"`, `\` and the control characters; the parser
//! accepts exactly the encoder's output, so a parsed record pins the text it
//! was read from (canonicity), and the records of a segment are recovered
//! one after the other without any outer framing (the format is
//! self-delimiting).

use vstd::prelude::*;

verus! {

/// A mutation, as it is written to a segment.
#[derive(Debug)]
pub enum Command {
    Put { key: String, value: String },
    Remove { key: String },
}

/// The mathematical value of a [`Command`].
pub enum CommandView {
    Put { key: Seq<char>, value: Seq<char> },
    Remove { key: Seq<char> },
}

impl View for Command {
    type V = CommandView;

    open spec fn view(&self) -> CommandView {
        match self {
            Command::Put { key, value } => CommandView::Put { key: key@, value: value@ },
            Command::Remove { key } => CommandView::Remove { key: key@ },
        }
    }
}

/// `{"Set":{"key":"` — everything of a `Set` record before the key's characters.
pub open spec fn set_prefix() -> Seq<char> {
    seq!['{', '"', 'S', 'e', 't', '"', ':', '{', '"', 'k', 'e', 'y', '"', ':', '"']
}

/// `,"value":"` — between the key's closing quote and the value's characters.
pub open spec fn value_mid() -> Seq<char> {
    seq![',', '"', 'v', 'a', 'l', 'u', 'e', '"', ':', '"']
}

/// `{"Remove":{"key":"` — everything of a `Remove` record before the key.
pub open spec fn remove_prefix() -> Seq<char> {
    seq!['{', '"', 'R', 'e', 'm', 'o', 'v', 'e', '"', ':', '{', '"', 'k', 'e', 'y', '"', ':', '"']
}

/// `}}` — the end of either record.
pub open spec fn close_braces() -> Seq<char> {
    seq!['}', '}']
}

/// The lower-case hex digit for `d` (meaningful for `0 <= d < 16`).
pub open spec fn hex_digit(d: int) -> char {
    if d == 0 { '0' } else if d == 1 { '1' } else if d == 2 { '2' } else if d == 3 { '3' }
    else if d == 4 { '4' } else if d == 5 { '5' } else if d == 6 { '6' } else if d == 7 { '7' }
    else if d == 8 { '8' } else if d == 9 { '9' } else if d == 10 { 'a' } else if d == 11 { 'b' }
    else if d == 12 { 'c' } else if d == 13 { 'd' } else if d == 14 { 'e' } else { 'f' }
}

/// How one character of a key or value appears inside a JSON string literal.
pub open spec fn escape_char(c: char) -> Seq<char> {
    if c == '"' {
        seq!['\\', '"']
    } else if c == '\\' {
        seq!['\\', '\\']
    } else if (c as int) < 32 {
        seq!['\\', 'u', '0', '0', hex_digit(c as int / 16), hex_digit(c as int % 16)]
    } else {
        seq![c]
    }
}

/// The body of the JSON string literal for `s` (without the quotes).
pub open spec fn encode_string(s: Seq<char>) -> Seq<char>
    decreases s.len(),
{
    if s.len() == 0 {
        Seq::empty()
    } else {
        escape_char(s[0]) + encode_string(s.drop_first())
    }
}

/// The full text of one record.
pub open spec fn encode_command(c: CommandView) -> Seq<char> {
    match c {
        CommandView::Put { key, value } => set_prefix() + encode_string(key) + seq!['"']
            + value_mid() + encode_string(value) + seq!['"'] + close_braces(),
        CommandView::Remove { key } => remove_prefix() + encode_string(key) + seq!['"']
            + close_braces(),
    }
}

/// Does the text `lit` stand at position `i` of `s`?
pub open spec fn lit_at(s: Seq<char>, i: int, lit: Seq<char>) -> bool {
    0 <= i && i + lit.len() <= s.len() && s.subrange(i, i + lit.len()) == lit
}

/// A digit the encoder uses first in a `\u00..` escape: the escaped
/// character is below 32, so the high digit is 0 or 1.
pub open spec fn is_low_hex(c: char) -> bool {
    c == '0' || c == '1'
}

/// A lower-case hex digit, as the encoder writes them.
pub open spec fn is_hex(c: char) -> bool {
    (48 <= c as int && c as int <= 57) || (97 <= c as int && c as int <= 102)
}

/// The value of a lower-case hex digit.
pub open spec fn hex_val(c: char) -> int {
    if 48 <= c as int && c as int <= 57 {
        c as int - 48
    } else {
        c as int - 87
    }
}

/// The character with code `v` (meaningful for `0 <= v < 256`).
pub open spec fn char_of(v: int) -> char {
    (v as u8) as char
}

/// Parse the body of a JSON string literal beginning at `i`, just past the
/// opening quote.  On success the result holds the decoded characters and
/// the position just past the closing quote.  The parser accepts exactly
/// the escapes the encoder writes, so that a successful parse pins the text
/// (see [`lemma_parse_string_canonical`]).
pub open spec fn parse_string(s: Seq<char>, i: int) -> Option<(Seq<char>, int)>
    decreases s.len() - i,
{
    if i < 0 || i >= s.len() {
        None
    } else if s[i] == '"' {
        Some((Seq::empty(), i + 1))
    } else if s[i] == '\\' {
        if i + 1 < s.len() && (s[i + 1] == '"' || s[i + 1] == '\\') {
            match parse_string(s, i + 2) {
                Some((t, j)) => Some((seq![s[i + 1]] + t, j)),
                None => None,
            }
        } else if i + 5 < s.len() && s[i + 1] == 'u' && s[i + 2] == '0' && s[i + 3] == '0'
            && is_low_hex(s[i + 4]) && is_hex(s[i + 5]) {
            match parse_string(s, i + 6) {
                Some((t, j)) => Some(
                    (seq![char_of(hex_val(s[i + 4]) * 16 + hex_val(s[i + 5]))] + t, j),
                ),
                None => None,
            }
        } else {
            None
        }
    } else if (s[i] as int) < 32 {
        None
    } else {
        match parse_string(s, i + 1) {
            Some((t, j)) => Some((seq![s[i]] + t, j)),
            None => None,
        }
    }
}

/// Parse one record beginning at `i`.  On success the result holds the
/// command and the position just past the record's closing braces.
pub open spec fn parse_command(s: Seq<char>, i: int) -> Option<(CommandView, int)> {
    if lit_at(s, i, set_prefix()) {
        match parse_string(s, i + 15) {
            Some((key, j)) => if lit_at(s, j, value_mid()) {
                match parse_string(s, j + 10) {
                    Some((value, j2)) => if lit_at(s, j2, close_braces()) {
                        Some((CommandView::Put { key, value }, j2 + 2))
                    } else {
                        None
                    },
                    None => None,
                }
            } else {
                None
            },
            None => None,
        }
    } else if lit_at(s, i, remove_prefix()) {
        match parse_string(s, i + 18) {
            Some((key, j)) => if lit_at(s, j, close_braces()) {
                Some((CommandView::Remove { key }, j + 2))
            } else {
                None
            },
            None => None,
        }
    } else {
        None
    }
}

/// The records of `s` from position `i` to the end, or `None` if the text
/// from `i` on is not a concatenation of records.
pub open spec fn records_from(s: Seq<char>, i: int) -> Option<Seq<CommandView>>
    decreases s.len() - i,
{
    if i < 0 || i > s.len() {
        None
    } else if i == s.len() {
        Some(Seq::empty())
    } else {
        match parse_command(s, i) {
            Some((c, j)) => if i < j <= s.len() {
                match records_from(s, j) {
                    Some(cs) => Some(seq![c] + cs),
                    None => None,
                }
            } else {
                None
            },
            None => None,
        }
    }
}

/// The records of a whole segment.
pub open spec fn records(s: Seq<char>) -> Option<Seq<CommandView>> {
    records_from(s, 0)
}

/// The escape of a character below 32 is made of the digits of its code,
/// and those digits read back to the code.
proof fn lemma_hex_round_trip(c: char)
    requires
        (c as int) < 32,
    ensures
        is_low_hex(hex_digit(c as int / 16)),
        is_hex(hex_digit(c as int % 16)),
        hex_val(hex_digit(c as int / 16)) == c as int / 16,
        hex_val(hex_digit(c as int % 16)) == c as int % 16,
        char_of(c as int) == c,
{
}

/// One place of a text equal to a subrange of `s`.
proof fn lemma_index_of_eq(s: Seq<char>, i: int, e: Seq<char>, t: int)
    requires
        0 <= i,
        i + e.len() <= s.len(),
        s.subrange(i, i + e.len()) == e,
        0 <= t < e.len(),
    ensures
        s[i + t] == e[t],
{
    assert(s.subrange(i, i + e.len())[t] == e[t]);
}

/// Wherever the encoding of `k`, closing quote included, stands in `s`, the
/// parser reads back exactly `k` and stops just past the closing quote.
proof fn lemma_encode_string_recognized(s: Seq<char>, k: Seq<char>, i: int)
    requires
        0 <= i,
        i + encode_string(k).len() + 1 <= s.len(),
        s.subrange(i, i + encode_string(k).len() + 1) == encode_string(k) + seq!['"'],
    ensures
        parse_string(s, i) == Some((k, i + encode_string(k).len() + 1)),
    decreases k.len(),
{
    let e = encode_string(k);
    let close = seq!['"'];
    let w = e + close;
    if k.len() == 0 {
        lemma_index_of_eq(s, i, w, 0);
        assert(s[i] == '"');
        assert(k =~= Seq::<char>::empty());
    } else {
        let c = k[0];
        let esc = escape_char(c);
        let k2 = k.drop_first();
        let e2 = encode_string(k2);
        assert(e == esc + e2);
        assert forall|t: int| 0 <= t < esc.len() implies s[i + t] == #[trigger] esc[t] by {
            lemma_index_of_eq(s, i, w, t);
            assert(w[t] == esc[t]);
        }
        let i2 = i + esc.len();
        let w2 = e2 + close;
        assert forall|t: int| 0 <= t < w2.len() implies s[i2 + t] == #[trigger] w2[t] by {
            lemma_index_of_eq(s, i, w, esc.len() + t);
            assert(w[esc.len() + t] == w2[t]);
        }
        assert(s.subrange(i2, i2 + e2.len() + 1) =~= w2);
        lemma_encode_string_recognized(s, k2, i2);
        assert(seq![c] + k2 =~= k);
        if c == '"' {
            assert(s[i] == '\\' && s[i + 1] == '"');
        } else if c == '\\' {
            assert(s[i] == '\\' && s[i + 1] == '\\');
        } else if (c as int) < 32 {
            lemma_hex_round_trip(c);
            assert(s[i] == '\\' && s[i + 1] == 'u' && s[i + 2] == '0' && s[i + 3] == '0');
            assert(s[i + 4] == hex_digit(c as int / 16) && s[i + 5] == hex_digit(
                c as int % 16,
            ));
            assert(hex_val(s[i + 4]) * 16 + hex_val(s[i + 5]) == c as int);
            assert(char_of(hex_val(s[i + 4]) * 16 + hex_val(s[i + 5])) == c);
        } else {
            assert(s[i] == c);
            assert(s[i] != '"' && s[i] != '\\' && (s[i] as int) >= 32);
        }
    }
}

/// A successful parse pins the text it read: the range consumed is exactly
/// the encoding of the result, closing quote included.  So the parser
/// accepts only what the encoder writes, and two different strings can
/// never share an encoding.
proof fn lemma_parse_string_canonical(s: Seq<char>, i: int)
    requires
        parse_string(s, i) is Some,
    ensures
        ({
            let (k, j) = parse_string(s, i).unwrap();
            &&& 0 <= i < j <= s.len()
            &&& j == i + encode_string(k).len() + 1
            &&& s.subrange(i, j) == encode_string(k) + seq!['"']
        }),
    decreases s.len() - i,
{
    let (k, j) = parse_string(s, i).unwrap();
    let close = seq!['"'];
    if s[i] == '"' {
        assert(s.subrange(i, i + 1) =~= encode_string(k) + close);
    } else {
        let (step, c): (int, char) = if s[i] == '\\' {
            if i + 1 < s.len() && (s[i + 1] == '"' || s[i + 1] == '\\') {
                (2int, s[i + 1])
            } else {
                (6int, char_of(hex_val(s[i + 4]) * 16 + hex_val(s[i + 5])))
            }
        } else {
            (1int, s[i])
        };
        let (t, j2) = parse_string(s, i + step).unwrap();
        lemma_parse_string_canonical(s, i + step);
        assert(k == seq![c] + t);
        assert(k[0] == c && k.drop_first() =~= t);
        assert(encode_string(k) == escape_char(c) + encode_string(t));
        if s[i] == '\\' && !(i + 1 < s.len() && (s[i + 1] == '"' || s[i + 1] == '\\')) {
            let v = hex_val(s[i + 4]) * 16 + hex_val(s[i + 5]);
            assert(is_low_hex(s[i + 4]) && is_hex(s[i + 5]));
            assert(0 <= v && v < 32);
            assert(c as int == v);
            assert(v / 16 == hex_val(s[i + 4]) && v % 16 == hex_val(s[i + 5]));
            assert(escape_char(c) =~= seq![
                '\\', 'u', '0', '0', s[i + 4], s[i + 5],
            ]);
        }
        let et = encode_string(t);
        let wt = et + close;
        assert forall|u: int| 0 <= u < wt.len() implies s[i + step + u] == #[trigger] wt[u] by {
            lemma_index_of_eq(s, i + step, wt, u);
        }
        assert forall|u: int| 0 <= u < j - i implies s.subrange(i, j)[u] == #[trigger] (
        escape_char(c) + wt)[u] by {
            if u < step {
                assert((escape_char(c) + wt)[u] == escape_char(c)[u]);
            } else {
                assert(s[i + step + (u - step)] == wt[u - step]);
            }
        }
        assert(encode_string(k) + close =~= escape_char(c) + wt);
        assert(s.subrange(i, j) =~= encode_string(k) + close);
    }
}



/// Concatenation of two known subranges.
proof fn lemma_cat_at(s: Seq<char>, i: int, a: Seq<char>, b: Seq<char>)
    requires
        0 <= i,
        i + a.len() + b.len() <= s.len(),
        s.subrange(i, i + a.len()) == a,
        s.subrange(i + a.len(), i + a.len() + b.len()) == b,
    ensures
        s.subrange(i, i + a.len() + b.len()) == a + b,
{
    assert forall|u: int| 0 <= u < a.len() + b.len() implies s[i + u] == #[trigger] (a + b)[u] by {
        if u < a.len() {
            lemma_index_of_eq(s, i, a, u);
        } else {
            lemma_index_of_eq(s, i + a.len(), b, u - a.len());
        }
    }
    assert(s.subrange(i, i + a.len() + b.len()) =~= a + b);
}

/// The text of a record is never empty.
proof fn lemma_encode_command_len(c: CommandView)
    ensures
        encode_command(c).len() >= 17,
{
}

/// Wherever the encoding of command `c` stands in `s`, the parser reads
/// back exactly `c` and stops just past it.
pub(crate) proof fn lemma_encode_command_recognized(s: Seq<char>, c: CommandView, i: int)
    requires
        0 <= i,
        i + encode_command(c).len() <= s.len(),
        s.subrange(i, i + encode_command(c).len()) == encode_command(c),
    ensures
        parse_command(s, i) == Some((c, i + encode_command(c).len())),
{
    let e = encode_command(c);
    let q = seq!['"'];
    match c {
        CommandView::Put { key, value } => {
            let sp = set_prefix();
            let vm = value_mid();
            let cb = close_braces();
            let ek = encode_string(key);
            let ev = encode_string(value);
            assert(e == sp + ek + q + vm + ev + q + cb);
            assert forall|t: int| 0 <= t < 15 implies s[i + t] == #[trigger] sp[t] by {
                lemma_index_of_eq(s, i, e, t);
            }
            assert(s.subrange(i, i + 15) =~= sp);
            assert(lit_at(s, i, sp));
            let o1 = i + 15;
            assert forall|t: int| 0 <= t < ek.len() + 1 implies s[o1 + t] == #[trigger] (ek
                + q)[t] by {
                lemma_index_of_eq(s, i, e, 15 + t);
            }
            assert(s.subrange(o1, o1 + ek.len() + 1) =~= ek + q);
            lemma_encode_string_recognized(s, key, o1);
            let j = o1 + ek.len() + 1;
            assert(parse_string(s, o1) == Some((key, j)));
            assert forall|t: int| 0 <= t < 10 implies s[j + t] == #[trigger] vm[t] by {
                lemma_index_of_eq(s, i, e, 15 + ek.len() + 1 + t);
            }
            assert(s.subrange(j, j + 10) =~= vm);
            assert(lit_at(s, j, vm));
            let o2 = j + 10;
            assert forall|t: int| 0 <= t < ev.len() + 1 implies s[o2 + t] == #[trigger] (ev
                + q)[t] by {
                lemma_index_of_eq(s, i, e, 15 + ek.len() + 1 + 10 + t);
            }
            assert(s.subrange(o2, o2 + ev.len() + 1) =~= ev + q);
            lemma_encode_string_recognized(s, value, o2);
            let j2 = o2 + ev.len() + 1;
            assert(parse_string(s, o2) == Some((value, j2)));
            assert forall|t: int| 0 <= t < 2 implies s[j2 + t] == #[trigger] cb[t] by {
                lemma_index_of_eq(s, i, e, 15 + ek.len() + 1 + 10 + ev.len() + 1 + t);
            }
            assert(s.subrange(j2, j2 + 2) =~= cb);
            assert(lit_at(s, j2, cb));
            assert(j2 + 2 == i + e.len());
        },
        CommandView::Remove { key } => {
            let rp = remove_prefix();
            let cb = close_braces();
            let ek = encode_string(key);
            assert(e == rp + ek + q + cb);
            assert forall|t: int| 0 <= t < 18 implies s[i + t] == #[trigger] rp[t] by {
                lemma_index_of_eq(s, i, e, t);
            }
            assert(s.subrange(i, i + 18) =~= rp);
            assert(lit_at(s, i, rp));
            if lit_at(s, i, set_prefix()) {
                lemma_index_of_eq(s, i, set_prefix(), 2);
                assert(false);
            }
            let o1 = i + 18;
            assert forall|t: int| 0 <= t < ek.len() + 1 implies s[o1 + t] == #[trigger] (ek
                + q)[t] by {
                lemma_index_of_eq(s, i, e, 18 + t);
            }
            assert(s.subrange(o1, o1 + ek.len() + 1) =~= ek + q);
            lemma_encode_string_recognized(s, key, o1);
            let j = o1 + ek.len() + 1;
            assert(parse_string(s, o1) == Some((key, j)));
            assert forall|t: int| 0 <= t < 2 implies s[j + t] == #[trigger] cb[t] by {
                lemma_index_of_eq(s, i, e, 18 + ek.len() + 1 + t);
            }
            assert(s.subrange(j, j + 2) =~= cb);
            assert(lit_at(s, j, cb));
            assert(j + 2 == i + e.len());
        },
    }
}

/// A successful parse of a record pins the text it read: the range consumed
/// is exactly the encoding of the command.
pub(crate) proof fn lemma_parse_command_canonical(s: Seq<char>, i: int)
    requires
        parse_command(s, i) is Some,
    ensures
        ({
            let (c, j) = parse_command(s, i).unwrap();
            &&& 0 <= i < j <= s.len()
            &&& j == i + encode_command(c).len()
            &&& s.subrange(i, j) == encode_command(c)
        }),
{
    let (c, j) = parse_command(s, i).unwrap();
    let q = seq!['"'];
    if lit_at(s, i, set_prefix()) {
        let sp = set_prefix();
        let vm = value_mid();
        let cb = close_braces();
        let o1 = i + 15;
        let (key, jk) = parse_string(s, o1).unwrap();
        lemma_parse_string_canonical(s, o1);
        let ek = encode_string(key);
        let o2 = jk + 10;
        let (value, jv) = parse_string(s, o2).unwrap();
        lemma_parse_string_canonical(s, o2);
        let ev = encode_string(value);
        assert(c == CommandView::Put { key, value } && j == jv + 2);
        assert(encode_command(c) == sp + ek + q + vm + ev + q + cb);
        lemma_cat_at(s, i, sp, ek + q);
        assert(sp + (ek + q) =~= sp + ek + q);
        assert(s.subrange(i, jk) == sp + ek + q);
        lemma_cat_at(s, i, sp + ek + q, vm);
        assert(s.subrange(i, o2) == sp + ek + q + vm);
        lemma_cat_at(s, i, sp + ek + q + vm, ev + q);
        assert((sp + ek + q + vm) + (ev + q) =~= sp + ek + q + vm + ev + q);
        assert(s.subrange(i, jv) == sp + ek + q + vm + ev + q);
        lemma_cat_at(s, i, sp + ek + q + vm + ev + q, cb);
        assert(s.subrange(i, j) == encode_command(c));
    } else {
        let rp = remove_prefix();
        let cb = close_braces();
        let o1 = i + 18;
        let (key, jk) = parse_string(s, o1).unwrap();
        lemma_parse_string_canonical(s, o1);
        let ek = encode_string(key);
        assert(c == CommandView::Remove { key } && j == jk + 2);
        assert(encode_command(c) == rp + ek + q + cb);
        lemma_cat_at(s, i, rp, ek + q);
        assert(rp + (ek + q) =~= rp + ek + q);
        assert(s.subrange(i, jk) == rp + ek + q);
        lemma_cat_at(s, i, rp + ek + q, cb);
        assert(s.subrange(i, j) == encode_command(c));
    }
}

/// Appending one record to a text that is a concatenation of records
/// appends its command to the record stream.
proof fn lemma_records_from_append(s: Seq<char>, c: CommandView, i: int)
    requires
        0 <= i <= s.len(),
        records_from(s, i) is Some,
    ensures
        records_from(s + encode_command(c), i) == Some(
            records_from(s, i).unwrap().push(c),
        ),
    decreases s.len() - i,
{
    let e = encode_command(c);
    let s2 = s + e;
    lemma_encode_command_len(c);
    if i == s.len() {
        assert(s2.subrange(i, i + e.len()) =~= e);
        lemma_encode_command_recognized(s2, c, i);
        assert(records_from(s2, i + e.len()) == Some(Seq::<CommandView>::empty()));
        assert(records_from(s2, i) == Some(seq![c] + Seq::<CommandView>::empty()));
        assert(seq![c] + Seq::<CommandView>::empty() =~= Seq::<CommandView>::empty().push(c));
        assert(records_from(s, i).unwrap() =~= Seq::<CommandView>::empty());
    } else {
        let (c1, j) = parse_command(s, i).unwrap();
        lemma_parse_command_canonical(s, i);
        assert(s2.subrange(i, j) =~= s.subrange(i, j));
        lemma_encode_command_recognized(s2, c1, i);
        assert(parse_command(s2, i) == Some((c1, j)));
        lemma_records_from_append(s, c, j);
        let tail = records_from(s, j).unwrap();
        assert(records_from(s2, i) == Some(seq![c1] + tail.push(c)));
        assert(seq![c1] + tail.push(c) =~= (seq![c1] + tail).push(c));
    }
}

/// Appending one record to a well-formed segment appends its command to
/// the segment's records.
pub proof fn lemma_records_append(s: Seq<char>, c: CommandView)
    requires
        records(s) is Some,
    ensures
        records(s + encode_command(c)) == Some(records(s).unwrap().push(c)),
{
    lemma_records_from_append(s, c, 0);
}

/// The empty text holds no records.
pub proof fn lemma_records_empty()
    ensures
        records(Seq::<char>::empty()) == Some(Seq::<CommandView>::empty()),
{
}

/// Encoding one character more extends the encoded body.
proof fn lemma_encode_string_push(t: Seq<char>, c: char)
    ensures
        encode_string(t.push(c)) == encode_string(t) + escape_char(c),
    decreases t.len(),
{
    if t.len() == 0 {
        assert(t.push(c).drop_first() =~= Seq::<char>::empty());
        assert(encode_string(Seq::<char>::empty()) == Seq::<char>::empty());
        assert((t.push(c))[0] == c);
        assert(encode_string(t.push(c)) == escape_char(c) + Seq::<char>::empty());
        assert(escape_char(c) + Seq::<char>::empty() =~= escape_char(c));
        assert(Seq::<char>::empty() + escape_char(c) =~= escape_char(c));
    } else {
        assert(t.push(c).drop_first() =~= t.drop_first().push(c));
        lemma_encode_string_push(t.drop_first(), c);
        assert(encode_string(t.push(c)) == escape_char(t[0]) + (encode_string(t.drop_first())
            + escape_char(c)));
        assert(escape_char(t[0]) + (encode_string(t.drop_first()) + escape_char(c)) =~= (
        escape_char(t[0]) + encode_string(t.drop_first())) + escape_char(c));
    }
}


/// Relies on `str::chars` (with `collect`): the characters of a string
/// slice, in order.
#[verifier::external_body]
pub(crate) fn string_chars(s: &str) -> (r: Vec<char>)
    ensures
        r@ == s@,
{
    s.chars().collect()
}

/// Relies on `String`'s `FromIterator<char>` (with `iter`): collecting
/// characters yields the string with exactly those characters, in order.
#[verifier::external_body]
pub(crate) fn chars_string(v: &Vec<char>) -> (r: String)
    ensures
        r@ == v@,
{
    v.iter().collect()
}

/// The lower-case hex digit for `d`.
pub(crate) fn hex_digit_exec(d: u32) -> (r: char)
    requires
        d < 16,
    ensures
        r == hex_digit(d as int),
{
    if d == 0 { '0' } else if d == 1 { '1' } else if d == 2 { '2' } else if d == 3 { '3' }
    else if d == 4 { '4' } else if d == 5 { '5' } else if d == 6 { '6' } else if d == 7 { '7' }
    else if d == 8 { '8' } else if d == 9 { '9' } else if d == 10 { 'a' } else if d == 11 { 'b' }
    else if d == 12 { 'c' } else if d == 13 { 'd' } else if d == 14 { 'e' } else { 'f' }
}

/// Append the escape of one character.
fn push_escaped(out: &mut Vec<char>, c: char)
    ensures
        final(out)@ == old(out)@ + escape_char(c),
{
    if c == '"' {
        out.push('\\');
        out.push('"');
        assert(out@ =~= old(out)@ + escape_char(c));
    } else if c == '\\' {
        out.push('\\');
        out.push('\\');
        assert(out@ =~= old(out)@ + escape_char(c));
    } else if (c as u32) < 32 {
        let v = c as u32;
        out.push('\\');
        out.push('u');
        out.push('0');
        out.push('0');
        out.push(hex_digit_exec(v / 16));
        out.push(hex_digit_exec(v % 16));
        assert(out@ =~= old(out)@ + escape_char(c));
    } else {
        out.push(c);
        assert(out@ =~= old(out)@ + escape_char(c));
    }
}

/// Append the encoded body of a string.
fn push_string_body(out: &mut Vec<char>, s: &String)
    ensures
        final(out)@ == old(out)@ + encode_string(s@),
{
    let chars = string_chars(s.as_str());
    let n = chars.len();
    let mut i: usize = 0;
    assert(s@.subrange(0, 0) =~= Seq::<char>::empty());
    assert(out@ =~= old(out)@ + encode_string(s@.subrange(0, 0)));
    while i < n
        invariant
            i <= n,
            n == s@.len(),
            chars@ == s@,
            out@ == old(out)@ + encode_string(s@.subrange(0, i as int)),
        decreases n - i,
    {
        push_escaped(out, chars[i]);
        proof {
            let pre = s@.subrange(0, i as int);
            lemma_encode_string_push(pre, s@[i as int]);
            assert(pre.push(s@[i as int]) =~= s@.subrange(0, i as int + 1));
            assert((old(out)@ + encode_string(pre)) + escape_char(s@[i as int]) =~= old(out)@
                + (encode_string(pre) + escape_char(s@[i as int])));
        }
        i = i + 1;
    }
    assert(s@.subrange(0, n as int) =~= s@);
}

/// The text of one record, as [`encode_command`] gives it.
pub(crate) fn render_command(cmd: &Command) -> (r: Vec<char>)
    ensures
        r@ == encode_command(cmd@),
{
    let mut out: Vec<char> = Vec::new();
    match cmd {
        Command::Put { key, value } => {
            out.push('{');
            out.push('"');
            out.push('S');
            out.push('e');
            out.push('t');
            out.push('"');
            out.push(':');
            out.push('{');
            out.push('"');
            out.push('k');
            out.push('e');
            out.push('y');
            out.push('"');
            out.push(':');
            out.push('"');
            assert(out@ =~= set_prefix());
            push_string_body(&mut out, key);
            out.push('"');
            let ghost mid1 = out@;
            assert(mid1 =~= set_prefix() + encode_string(key@) + seq!['"']);
            out.push(',');
            out.push('"');
            out.push('v');
            out.push('a');
            out.push('l');
            out.push('u');
            out.push('e');
            out.push('"');
            out.push(':');
            out.push('"');
            assert(out@ =~= mid1 + value_mid());
            push_string_body(&mut out, value);
            out.push('"');
            out.push('}');
            out.push('}');
            assert(out@ =~= set_prefix() + encode_string(key@) + seq!['"'] + value_mid()
                + encode_string(value@) + seq!['"'] + close_braces());
        },
        Command::Remove { key } => {
            out.push('{');
            out.push('"');
            out.push('R');
            out.push('e');
            out.push('m');
            out.push('o');
            out.push('v');
            out.push('e');
            out.push('"');
            out.push(':');
            out.push('{');
            out.push('"');
            out.push('k');
            out.push('e');
            out.push('y');
            out.push('"');
            out.push(':');
            out.push('"');
            assert(out@ =~= remove_prefix());
            push_string_body(&mut out, key);
            out.push('"');
            out.push('}');
            out.push('}');
            assert(out@ =~= remove_prefix() + encode_string(key@) + seq!['"'] + close_braces());
        },
    }
    out
}

/// Does the text `pat` stand at position `i` of `data`?
fn match_at(data: &Vec<char>, i: usize, pat: &Vec<char>) -> (b: bool)
    ensures
        b == lit_at(data@, i as int, pat@),
{
    let n = pat.len();
    if data.len() < n || i > data.len() - n {
        return false;
    }
    let mut t: usize = 0;
    while t < n
        invariant
            t <= n,
            n == pat.len(),
            i + n <= data.len(),
            forall|u: int| 0 <= u < t ==> data@[i + u] == #[trigger] pat@[u],
        decreases n - t,
    {
        if data[i + t] != pat[t] {
            proof {
                if lit_at(data@, i as int, pat@) {
                    lemma_index_of_eq(data@, i as int, pat@, t as int);
                }
            }
            return false;
        }
        t = t + 1;
    }
    proof {
        assert(data@.subrange(i as int, i as int + n as int) =~= pat@);
    }
    true
}

/// The characters of [`set_prefix`].
fn set_prefix_chars() -> (r: Vec<char>)
    ensures
        r@ == set_prefix(),
{
    let mut out: Vec<char> = Vec::new();
    out.push('{');
    out.push('"');
    out.push('S');
    out.push('e');
    out.push('t');
    out.push('"');
    out.push(':');
    out.push('{');
    out.push('"');
    out.push('k');
    out.push('e');
    out.push('y');
    out.push('"');
    out.push(':');
    out.push('"');
    assert(out@ =~= set_prefix());
    out
}

/// The characters of [`value_mid`].
fn value_mid_chars() -> (r: Vec<char>)
    ensures
        r@ == value_mid(),
{
    let mut out: Vec<char> = Vec::new();
    out.push(',');
    out.push('"');
    out.push('v');
    out.push('a');
    out.push('l');
    out.push('u');
    out.push('e');
    out.push('"');
    out.push(':');
    out.push('"');
    assert(out@ =~= value_mid());
    out
}

/// The characters of [`remove_prefix`].
fn remove_prefix_chars() -> (r: Vec<char>)
    ensures
        r@ == remove_prefix(),
{
    let mut out: Vec<char> = Vec::new();
    out.push('{');
    out.push('"');
    out.push('R');
    out.push('e');
    out.push('m');
    out.push('o');
    out.push('v');
    out.push('e');
    out.push('"');
    out.push(':');
    out.push('{');
    out.push('"');
    out.push('k');
    out.push('e');
    out.push('y');
    out.push('"');
    out.push(':');
    out.push('"');
    assert(out@ =~= remove_prefix());
    out
}

/// The characters of [`close_braces`].
fn close_braces_chars() -> (r: Vec<char>)
    ensures
        r@ == close_braces(),
{
    let mut out: Vec<char> = Vec::new();
    out.push('}');
    out.push('}');
    assert(out@ =~= close_braces());
    out
}

/// Read a JSON string literal's body beginning at `from`, as
/// [`parse_string`] reads it.
fn parse_string_exec(data: &Vec<char>, from: usize) -> (r: Option<(Vec<char>, usize)>)
    ensures
        (parse_string(data@, from as int) is Some) <==> (r is Some),
        r matches Some(v) ==> parse_string(data@, from as int) matches Some(p) && v.0@ == p.0
            && v.1 == p.1,
{
    let mut out: Vec<char> = Vec::new();
    let mut i = from;
    proof {
        if parse_string(data@, from as int) is Some {
            let (k, j) = parse_string(data@, from as int).unwrap();
            assert(Seq::<char>::empty() + k =~= k);
        }
    }
    loop
        invariant
            from <= i,
            match parse_string(data@, i as int) {
                Some((k2, j)) => parse_string(data@, from as int) == Some((out@ + k2, j)),
                None => parse_string(data@, from as int) is None,
            },
        decreases data.len() - i,
    {
        if i >= data.len() {
            return None;
        }
        let c = data[i];
        if c == '"' {
            proof {
                assert(out@ + Seq::<char>::empty() =~= out@);
            }
            return Some((out, i + 1));
        } else if c == '\\' {
            if data.len() - i > 1 && (data[i + 1] == '"' || data[i + 1] == '\\') {
                let c2 = data[i + 1];
                proof {
                    if let Some((t, j)) = parse_string(data@, i as int + 2) {
                        assert((out@ + seq![c2]) + t =~= out@ + (seq![c2] + t));
                    }
                }
                out.push(c2);
                i = i + 2;
            } else if data.len() - i > 5 && data[i + 1] == 'u' && data[i + 2] == '0'
                && data[i + 3] == '0' && (data[i + 4] == '0' || data[i + 4] == '1')
                && is_hex_exec(data[i + 5]) {
                let v: u32 = hex_val_exec(data[i + 4]) * 16 + hex_val_exec(data[i + 5]);
                let c2 = (v as u8) as char;
                proof {
                    assert(c2 == char_of(hex_val(data@[i + 4]) * 16 + hex_val(data@[i + 5])));
                    if let Some((t, j)) = parse_string(data@, i as int + 6) {
                        assert((out@ + seq![c2]) + t =~= out@ + (seq![c2] + t));
                    }
                }
                out.push(c2);
                i = i + 6;
            } else {
                return None;
            }
        } else if is_ctrl(c) {
            return None;
        } else {
            proof {
                if let Some((t, j)) = parse_string(data@, i as int + 1) {
                    assert((out@ + seq![c]) + t =~= out@ + (seq![c] + t));
                }
            }
            out.push(c);
            i = i + 1;
        }
    }
}

/// Is `c` a control character, which the encoder always escapes?
fn is_ctrl(c: char) -> (b: bool)
    ensures
        b == ((c as int) < 32),
{
    (c as u32) < 32
}

/// Is `c` a lower-case hex digit?
fn is_hex_exec(c: char) -> (b: bool)
    ensures
        b == is_hex(c),
{
    let v = c as u32;
    (48 <= v && v <= 57) || (97 <= v && v <= 102)
}

/// The value of a lower-case hex digit.
fn hex_val_exec(c: char) -> (r: u32)
    requires
        is_hex(c),
    ensures
        r == hex_val(c),
        r < 16,
{
    let v = c as u32;
    if v <= 57 {
        v - 48
    } else {
        v - 87
    }
}

/// Read one record beginning at `from`, as [`parse_command`] reads it.
pub(crate) fn parse_record(data: &Vec<char>, from: usize) -> (r: Option<(Command, usize)>)
    ensures
        (parse_command(data@, from as int) is Some) <==> (r is Some),
        r matches Some(v) ==> parse_command(data@, from as int) matches Some(p) && v.0@ == p.0
            && v.1 == p.1,
{
    let n = data.len();
    let sp = set_prefix_chars();
    if match_at(data, from, &sp) {
        proof {
            assert(set_prefix().len() == 15);
            assert(from as int + 15 <= data@.len());
            assert(data@.len() == n as int);
        }
        match parse_string_exec(data, from + 15) {
            None => None,
            Some((key, j)) => {
                let vm = value_mid_chars();
                if match_at(data, j, &vm) {
                    proof {
                        assert(value_mid().len() == 10);
                        assert(j as int + 10 <= data@.len());
                        assert(data@.len() == n as int);
                    }
                    match parse_string_exec(data, j + 10) {
                        None => None,
                        Some((value, j2)) => {
                            let cb = close_braces_chars();
                            if match_at(data, j2, &cb) {
                                proof {
                                    assert(j2 as int + 2 <= data@.len());
                                    assert(data@.len() == n as int);
                                }
                                Some(
                                    (
                                        Command::Put {
                                            key: chars_string(&key),
                                            value: chars_string(&value),
                                        },
                                        j2 + 2,
                                    ),
                                )
                            } else {
                                None
                            }
                        },
                    }
                } else {
                    None
                }
            },
        }
    } else {
        let rp = remove_prefix_chars();
        if match_at(data, from, &rp) {
            proof {
                assert(remove_prefix().len() == 18);
                assert(from as int + 18 <= data@.len());
                assert(data@.len() == n as int);
            }
            match parse_string_exec(data, from + 18) {
                None => None,
                Some((key, j)) => {
                    let cb = close_braces_chars();
                    if match_at(data, j, &cb) {
                        proof {
                            assert(j as int + 2 <= data@.len());
                            assert(data@.len() == n as int);
                        }
                        Some((Command::Remove { key: chars_string(&key) }, j + 2))
                    } else {
                        None
                    }
                },
            }
        } else {
            None
        }
    }
}

} // verus!

