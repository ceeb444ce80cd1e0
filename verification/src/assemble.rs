//! Turns the chosen prefixes and words into the final password and
//! passphrase strings: one randomly chosen position may be upper-cased
//! and may receive a digit/symbol token just before or just after it.

use vstd::prelude::*;

verus! {

/// The ASCII upper-case counterpart of `c`: letters `a` to `z` map to
/// `A` to `Z`, all other characters stay unchanged.
pub open spec fn upper_char(c: char) -> char {
    if 'a' <= c && c <= 'z' {
        (((c as u32) - 32) as u8) as char
    } else {
        c
    }
}

/// `s` upper-cased character by character.
pub open spec fn upper_seq(s: Seq<char>) -> Seq<char> {
    Seq::new(s.len(), |i: int| upper_char(s[i]))
}

/// Relies on `str::to_ascii_uppercase`: letters `a` to `z` are mapped
/// to `A` to `Z`; all other characters stay unchanged, one for one.
#[verifier::external_body]
fn ascii_upper(s: &str) -> (r: String)
    ensures
        r@ == upper_seq(s@),
{
    s.to_ascii_uppercase()
}

/// The digit character for a draw below ten.
pub open spec fn digit_char(i: int) -> char {
    if i == 0 {
        '0'
    } else if i == 1 {
        '1'
    } else if i == 2 {
        '2'
    } else if i == 3 {
        '3'
    } else if i == 4 {
        '4'
    } else if i == 5 {
        '5'
    } else if i == 6 {
        '6'
    } else if i == 7 {
        '7'
    } else if i == 8 {
        '8'
    } else {
        '9'
    }
}

/// The symbol character for a draw below six, from the fixed set.
pub open spec fn symbol_char(i: int) -> char {
    if i == 0 {
        '@'
    } else if i == 1 {
        '#'
    } else if i == 2 {
        '$'
    } else if i == 3 {
        '&'
    } else if i == 4 {
        '%'
    } else {
        '!'
    }
}

/// Whether `c` is a decimal digit.
pub open spec fn is_digit_char(c: char) -> bool {
    '0' <= c && c <= '9'
}

/// Whether `c` belongs to the fixed symbol set.
pub open spec fn is_symbol_char(c: char) -> bool {
    c == '@' || c == '#' || c == '$' || c == '&' || c == '%' || c == '!'
}

/// Whether `s` holds at least one decimal digit.
pub open spec fn contains_digit(s: Seq<char>) -> bool {
    exists|i: int| 0 <= i < s.len() && is_digit_char(#[trigger] s[i])
}

/// Whether `s` holds at least one character of the symbol set.
pub open spec fn contains_symbol(s: Seq<char>) -> bool {
    exists|i: int| 0 <= i < s.len() && is_symbol_char(#[trigger] s[i])
}

/// The digit/symbol token: the drawn digit if asked for, the drawn
/// symbol if asked for, in the drawn order.
pub open spec fn spec_insertion(
    add_digit: bool,
    add_symbol: bool,
    digit_idx: int,
    symbol_idx: int,
    digit_first: bool,
) -> Seq<char> {
    let d: Seq<char> = if add_digit {
        seq![digit_char(digit_idx)]
    } else {
        Seq::empty()
    };
    let y: Seq<char> = if add_symbol {
        seq![symbol_char(symbol_idx)]
    } else {
        Seq::empty()
    };
    if digit_first {
        d + y
    } else {
        y + d
    }
}

/// The rendered tokens from position `i` on: each item, the chosen one
/// upper-cased if asked for, with the insertion token beside it.
pub open spec fn tokens_from(
    items: Seq<Seq<char>>,
    chosen: int,
    cap: bool,
    ins: Seq<char>,
    before: bool,
    i: int,
) -> Seq<Seq<char>>
    decreases items.len() - i,
{
    if i < 0 || i >= items.len() {
        Seq::empty()
    } else {
        let base: Seq<char> = if i == chosen && cap {
            upper_seq(items[i])
        } else {
            items[i]
        };
        let here: Seq<Seq<char>> = if i == chosen && ins.len() > 0 {
            if before {
                seq![ins, base]
            } else {
                seq![base, ins]
            }
        } else {
            seq![base]
        };
        here + tokens_from(items, chosen, cap, ins, before, i + 1)
    }
}

/// All tokens concatenated with nothing between them.
pub open spec fn concat_seqs(ts: Seq<Seq<char>>) -> Seq<char>
    decreases ts.len(),
{
    if ts.len() == 0 {
        Seq::empty()
    } else {
        ts[0] + concat_seqs(ts.drop_first())
    }
}

/// All tokens joined with single spaces.
pub open spec fn join_spaces(ts: Seq<Seq<char>>) -> Seq<char>
    decreases ts.len(),
{
    if ts.len() == 0 {
        Seq::empty()
    } else if ts.len() == 1 {
        ts[0]
    } else {
        ts[0] + seq![' '] + join_spaces(ts.drop_first())
    }
}

/// A character of some token appears in the concatenation.
proof fn lemma_concat_contains(ts: Seq<Seq<char>>, k: int, j: int)
    requires
        0 <= k < ts.len(),
        0 <= j < ts[k].len(),
    ensures
        exists|m: int| 0 <= m < concat_seqs(ts).len() && concat_seqs(ts)[m] == ts[k][j],
    decreases ts.len(),
{
    if k == 0 {
        assert(concat_seqs(ts)[j] == ts[0][j]);
    } else {
        lemma_concat_contains(ts.drop_first(), k - 1, j);
        let tail = concat_seqs(ts.drop_first());
        let m0 = choose|m: int| 0 <= m < tail.len() && tail[m] == ts.drop_first()[k - 1][j];
        assert(concat_seqs(ts)[ts[0].len() + m0] == tail[m0]);
        assert(ts.drop_first()[k - 1] == ts[k]);
    }
}

/// Every character of the concatenation comes from some token.
proof fn lemma_concat_chars(ts: Seq<Seq<char>>, m: int)
    requires
        0 <= m < concat_seqs(ts).len(),
    ensures
        exists|k: int, j: int|
            0 <= k < ts.len() && 0 <= j < ts[k].len() && concat_seqs(ts)[m] == #[trigger] ts[k][j],
    decreases ts.len(),
{
    if ts.len() > 0 {
        if m < ts[0].len() {
            assert(concat_seqs(ts)[m] == ts[0][m]);
        } else {
            lemma_concat_chars(ts.drop_first(), m - ts[0].len());
            let (k0, j0) = choose|k: int, j: int|
                0 <= k < ts.drop_first().len() && 0 <= j < ts.drop_first()[k].len() && concat_seqs(
                    ts.drop_first(),
                )[m - ts[0].len()] == #[trigger] ts.drop_first()[k][j];
            assert(ts.drop_first()[k0] == ts[k0 + 1]);
            assert(concat_seqs(ts)[m] == ts[k0 + 1][j0]);
        }
    }
}

/// Every character of the space-joined string comes from some token or
/// is a space.
proof fn lemma_join_chars(ts: Seq<Seq<char>>, m: int)
    requires
        0 <= m < join_spaces(ts).len(),
    ensures
        join_spaces(ts)[m] == ' ' || exists|k: int, j: int|
            0 <= k < ts.len() && 0 <= j < ts[k].len() && join_spaces(ts)[m] == #[trigger] ts[k][j],
    decreases ts.len(),
{
    if ts.len() == 1 {
        assert(join_spaces(ts)[m] == ts[0][m]);
    } else if ts.len() > 1 {
        if m < ts[0].len() {
            assert(join_spaces(ts)[m] == ts[0][m]);
        } else if m == ts[0].len() {
            assert(join_spaces(ts)[m] == ' ');
        } else {
            lemma_join_chars(ts.drop_first(), m - ts[0].len() - 1);
            let tail = join_spaces(ts.drop_first());
            assert(join_spaces(ts)[m] == tail[m - ts[0].len() - 1]);
            if tail[m - ts[0].len() - 1] != ' ' {
                let (k0, j0) = choose|k: int, j: int|
                    0 <= k < ts.drop_first().len() && 0 <= j < ts.drop_first()[k].len() && tail[m
                        - ts[0].len() - 1] == #[trigger] ts.drop_first()[k][j];
                assert(ts.drop_first()[k0] == ts[k0 + 1]);
                assert(join_spaces(ts)[m] == ts[k0 + 1][j0]);
            }
        }
    }
}

/// A character of some token appears in the space-joined string.
proof fn lemma_join_contains(ts: Seq<Seq<char>>, k: int, j: int)
    requires
        0 <= k < ts.len(),
        0 <= j < ts[k].len(),
    ensures
        exists|m: int| 0 <= m < join_spaces(ts).len() && join_spaces(ts)[m] == ts[k][j],
    decreases ts.len(),
{
    if k == 0 {
        assert(join_spaces(ts)[j] == ts[0][j]);
    } else {
        lemma_join_contains(ts.drop_first(), k - 1, j);
        let tail = join_spaces(ts.drop_first());
        let m0 = choose|m: int| 0 <= m < tail.len() && tail[m] == ts.drop_first()[k - 1][j];
        assert(join_spaces(ts)[ts[0].len() + 1 + m0] == tail[m0]);
        assert(ts.drop_first()[k - 1] == ts[k]);
    }
}

/// The chosen position's token list always holds the insertion token
/// when there is one.
proof fn lemma_tokens_hold_insertion(
    items: Seq<Seq<char>>,
    chosen: int,
    cap: bool,
    ins: Seq<char>,
    before: bool,
    i: int,
)
    requires
        0 <= i <= chosen < items.len(),
        ins.len() > 0,
    ensures
        exists|k: int|
            0 <= k < tokens_from(items, chosen, cap, ins, before, i).len() && #[trigger] tokens_from(
                items,
                chosen,
                cap,
                ins,
                before,
                i,
            )[k] == ins,
    decreases items.len() - i,
{
    let ts = tokens_from(items, chosen, cap, ins, before, i);
    if i == chosen {
        if before {
            assert(ts[0] == ins);
        } else {
            assert(ts[1] == ins);
        }
    } else {
        lemma_tokens_hold_insertion(items, chosen, cap, ins, before, i + 1);
        let tail = tokens_from(items, chosen, cap, ins, before, i + 1);
        let k0 = choose|k: int| 0 <= k < tail.len() && #[trigger] tail[k] == ins;
        assert(ts[1 + k0] == tail[k0]);
    }
}

/// Every token is either the insertion token or a rendering of one of
/// the items.
proof fn lemma_tokens_shape(
    items: Seq<Seq<char>>,
    chosen: int,
    cap: bool,
    ins: Seq<char>,
    before: bool,
    i: int,
)
    ensures
        forall|k: int|
            0 <= k < tokens_from(items, chosen, cap, ins, before, i).len() ==> {
                let t = #[trigger] tokens_from(items, chosen, cap, ins, before, i)[k];
                t == ins || exists|w: int|
                    i <= w < items.len() && (t == items[w] || t == upper_seq(#[trigger] items[w]))
            },
    decreases items.len() - i,
{
    if 0 <= i && i < items.len() {
        lemma_tokens_shape(items, chosen, cap, ins, before, i + 1);
        let ts = tokens_from(items, chosen, cap, ins, before, i);
        let tail = tokens_from(items, chosen, cap, ins, before, i + 1);
        let here_len = ts.len() - tail.len();
        assert forall|k: int| 0 <= k < ts.len() implies {
            let t = #[trigger] ts[k];
            t == ins || exists|w: int|
                i <= w < items.len() && (t == items[w] || t == upper_seq(#[trigger] items[w]))
        } by {
            if k >= here_len {
                assert(ts[k] == tail[k - here_len]);
                let t = tail[k - here_len];
                if t != ins {
                    let w0 = choose|w: int|
                        i + 1 <= w < items.len() && (t == items[w] || t == upper_seq(
                            #[trigger] items[w],
                        ));
                    assert(ts[k] == items[w0] || ts[k] == upper_seq(items[w0]));
                }
            } else {
                let base: Seq<char> = if i == chosen && cap {
                    upper_seq(items[i])
                } else {
                    items[i]
                };
                assert(ts[k] == ins || ts[k] == base);
            }
        }
    }
}

/// Upper-casing introduces no digit and no symbol.
proof fn lemma_upper_keeps_charset(s: Seq<char>)
    ensures
        !contains_digit(s) ==> !contains_digit(upper_seq(s)),
        !contains_symbol(s) ==> !contains_symbol(upper_seq(s)),
{
    if !contains_digit(s) && contains_digit(upper_seq(s)) {
        let i = choose|i: int| 0 <= i < upper_seq(s).len() && is_digit_char(upper_seq(s)[i]);
        assert(upper_seq(s)[i] == upper_char(s[i]));
        assert(is_digit_char(s[i]));
    }
    if !contains_symbol(s) && contains_symbol(upper_seq(s)) {
        let i = choose|i: int| 0 <= i < upper_seq(s).len() && is_symbol_char(upper_seq(s)[i]);
        assert(upper_seq(s)[i] == upper_char(s[i]));
        assert(is_symbol_char(s[i]));
    }
}

/// If the insertion token holds a digit, so do the assembled password
/// and passphrase; and when neither the items nor the token hold one,
/// neither result does. The same holds of symbols.
pub proof fn lemma_formatting_charsets(
    items: Seq<Seq<char>>,
    chosen: int,
    cap: bool,
    ins: Seq<char>,
    before: bool,
)
    requires
        0 <= chosen < items.len(),
    ensures
        contains_digit(ins) ==> contains_digit(
            concat_seqs(tokens_from(items, chosen, cap, ins, before, 0)),
        ) && contains_digit(join_spaces(tokens_from(items, chosen, cap, ins, before, 0))),
        contains_symbol(ins) ==> contains_symbol(
            concat_seqs(tokens_from(items, chosen, cap, ins, before, 0)),
        ) && contains_symbol(join_spaces(tokens_from(items, chosen, cap, ins, before, 0))),
        (!contains_digit(ins) && forall|w: int|
            0 <= w < items.len() ==> !contains_digit(#[trigger] items[w])) ==> !contains_digit(
            concat_seqs(tokens_from(items, chosen, cap, ins, before, 0)),
        ) && !contains_digit(join_spaces(tokens_from(items, chosen, cap, ins, before, 0))),
        (!contains_symbol(ins) && forall|w: int|
            0 <= w < items.len() ==> !contains_symbol(#[trigger] items[w])) ==> !contains_symbol(
            concat_seqs(tokens_from(items, chosen, cap, ins, before, 0)),
        ) && !contains_symbol(join_spaces(tokens_from(items, chosen, cap, ins, before, 0))),
{
    let ts = tokens_from(items, chosen, cap, ins, before, 0);
    if ins.len() > 0 {
        lemma_tokens_hold_insertion(items, chosen, cap, ins, before, 0);
        let k0 = choose|k: int| 0 <= k < ts.len() && #[trigger] ts[k] == ins;
        if contains_digit(ins) {
            let j = choose|j: int| 0 <= j < ins.len() && is_digit_char(ins[j]);
            lemma_concat_contains(ts, k0, j);
            lemma_join_contains(ts, k0, j);
        }
        if contains_symbol(ins) {
            let j = choose|j: int| 0 <= j < ins.len() && is_symbol_char(ins[j]);
            lemma_concat_contains(ts, k0, j);
            lemma_join_contains(ts, k0, j);
        }
    }
    lemma_tokens_shape(items, chosen, cap, ins, before, 0);
    if !contains_digit(ins) && (forall|w: int|
        0 <= w < items.len() ==> !contains_digit(#[trigger] items[w])) {
        if contains_digit(concat_seqs(ts)) {
            let m = choose|m: int|
                0 <= m < concat_seqs(ts).len() && is_digit_char(concat_seqs(ts)[m]);
            lemma_concat_chars(ts, m);
            let (k0, j0) = choose|k: int, j: int|
                0 <= k < ts.len() && 0 <= j < ts[k].len() && concat_seqs(ts)[m]
                    == #[trigger] ts[k][j];
            lemma_token_no_digit(items, chosen, cap, ins, before, k0);
            assert(false);
        }
        if contains_digit(join_spaces(ts)) {
            let m = choose|m: int|
                0 <= m < join_spaces(ts).len() && is_digit_char(join_spaces(ts)[m]);
            lemma_join_chars(ts, m);
            if join_spaces(ts)[m] != ' ' {
                let (k0, j0) = choose|k: int, j: int|
                    0 <= k < ts.len() && 0 <= j < ts[k].len() && join_spaces(ts)[m]
                        == #[trigger] ts[k][j];
                lemma_token_no_digit(items, chosen, cap, ins, before, k0);
            }
            assert(false);
        }
    }
    if !contains_symbol(ins) && (forall|w: int|
        0 <= w < items.len() ==> !contains_symbol(#[trigger] items[w])) {
        if contains_symbol(concat_seqs(ts)) {
            let m = choose|m: int|
                0 <= m < concat_seqs(ts).len() && is_symbol_char(concat_seqs(ts)[m]);
            lemma_concat_chars(ts, m);
            let (k0, j0) = choose|k: int, j: int|
                0 <= k < ts.len() && 0 <= j < ts[k].len() && concat_seqs(ts)[m]
                    == #[trigger] ts[k][j];
            lemma_token_no_symbol(items, chosen, cap, ins, before, k0);
            assert(false);
        }
        if contains_symbol(join_spaces(ts)) {
            let m = choose|m: int|
                0 <= m < join_spaces(ts).len() && is_symbol_char(join_spaces(ts)[m]);
            lemma_join_chars(ts, m);
            if join_spaces(ts)[m] != ' ' {
                let (k0, j0) = choose|k: int, j: int|
                    0 <= k < ts.len() && 0 <= j < ts[k].len() && join_spaces(ts)[m]
                        == #[trigger] ts[k][j];
                lemma_token_no_symbol(items, chosen, cap, ins, before, k0);
            }
            assert(false);
        }
    }
}

/// A token of digit-free items and a digit-free insertion is digit-free.
proof fn lemma_token_no_digit(
    items: Seq<Seq<char>>,
    chosen: int,
    cap: bool,
    ins: Seq<char>,
    before: bool,
    k: int,
)
    requires
        !contains_digit(ins),
        forall|w: int| 0 <= w < items.len() ==> !contains_digit(#[trigger] items[w]),
        0 <= k < tokens_from(items, chosen, cap, ins, before, 0).len(),
    ensures
        !contains_digit(tokens_from(items, chosen, cap, ins, before, 0)[k]),
{
    lemma_tokens_shape(items, chosen, cap, ins, before, 0);
    let t = tokens_from(items, chosen, cap, ins, before, 0)[k];
    if t != ins {
        let w0 = choose|w: int|
            0 <= w < items.len() && (t == items[w] || t == upper_seq(#[trigger] items[w]));
        lemma_upper_keeps_charset(items[w0]);
    }
}

/// A token of symbol-free items and a symbol-free insertion is
/// symbol-free.
proof fn lemma_token_no_symbol(
    items: Seq<Seq<char>>,
    chosen: int,
    cap: bool,
    ins: Seq<char>,
    before: bool,
    k: int,
)
    requires
        !contains_symbol(ins),
        forall|w: int| 0 <= w < items.len() ==> !contains_symbol(#[trigger] items[w]),
        0 <= k < tokens_from(items, chosen, cap, ins, before, 0).len(),
    ensures
        !contains_symbol(tokens_from(items, chosen, cap, ins, before, 0)[k]),
{
    lemma_tokens_shape(items, chosen, cap, ins, before, 0);
    let t = tokens_from(items, chosen, cap, ins, before, 0)[k];
    if t != ins {
        let w0 = choose|w: int|
            0 <= w < items.len() && (t == items[w] || t == upper_seq(#[trigger] items[w]));
        lemma_upper_keeps_charset(items[w0]);
    }
}

/// The insertion token holds a digit exactly when a digit was asked
/// for, and a symbol exactly when a symbol was asked for.
pub proof fn lemma_insertion_charset(
    add_digit: bool,
    add_symbol: bool,
    digit_idx: int,
    symbol_idx: int,
    digit_first: bool,
)
    requires
        0 <= digit_idx < 10,
        0 <= symbol_idx < 6,
    ensures
        contains_digit(spec_insertion(add_digit, add_symbol, digit_idx, symbol_idx, digit_first))
            == add_digit,
        contains_symbol(spec_insertion(add_digit, add_symbol, digit_idx, symbol_idx, digit_first))
            == add_symbol,
        spec_insertion(add_digit, add_symbol, digit_idx, symbol_idx, digit_first).len() == (
        if add_digit {
            1int
        } else {
            0int
        }) + (if add_symbol {
            1int
        } else {
            0int
        }),
{
    let ins = spec_insertion(add_digit, add_symbol, digit_idx, symbol_idx, digit_first);
    assert(is_digit_char(digit_char(digit_idx)));
    assert(is_symbol_char(symbol_char(symbol_idx)));
    assert(!is_digit_char(symbol_char(symbol_idx)));
    assert(!is_symbol_char(digit_char(digit_idx)));
    if add_digit {
        assert(exists|i: int| 0 <= i < ins.len() && is_digit_char(#[trigger] ins[i])) by {
            if digit_first {
                assert(is_digit_char(ins[0]));
            } else {
                assert(is_digit_char(ins[ins.len() - 1]));
            }
        }
    } else {
        assert forall|i: int| 0 <= i < ins.len() implies !is_digit_char(#[trigger] ins[i]) by {
            assert(ins[i] == symbol_char(symbol_idx));
        }
    }
    if add_symbol {
        assert(exists|i: int| 0 <= i < ins.len() && is_symbol_char(#[trigger] ins[i])) by {
            if digit_first {
                assert(is_symbol_char(ins[ins.len() - 1]));
            } else {
                assert(is_symbol_char(ins[0]));
            }
        }
    } else {
        assert forall|i: int| 0 <= i < ins.len() implies !is_symbol_char(#[trigger] ins[i]) by {
            assert(ins[i] == digit_char(digit_idx));
        }
    }
}

/// The tail of the space-join from position `i` on: a leading space
/// before every token.
pub open spec fn join_rest(ts: Seq<Seq<char>>, i: int) -> Seq<char>
    decreases ts.len() - i,
{
    if i < 0 || i >= ts.len() {
        Seq::empty()
    } else {
        seq![' '] + ts[i] + join_rest(ts, i + 1)
    }
}

/// Dropping the head shifts the join tail by one.
proof fn lemma_join_rest_shift(ts: Seq<Seq<char>>, i: int)
    requires
        1 <= i <= ts.len(),
        ts.len() >= 1,
    ensures
        join_rest(ts, i) == join_rest(ts.drop_first(), i - 1),
    decreases ts.len() - i,
{
    if i < ts.len() {
        lemma_join_rest_shift(ts, i + 1);
        assert(ts.drop_first()[i - 1] == ts[i]);
        assert(seq![' '] + ts[i] + join_rest(ts, i + 1) =~= seq![' '] + ts.drop_first()[i - 1]
            + join_rest(ts.drop_first(), i));
    }
}

/// The space-join is its first token followed by the join tail.
proof fn lemma_join_spaces_head(ts: Seq<Seq<char>>)
    requires
        ts.len() >= 1,
    ensures
        join_spaces(ts) == ts[0] + join_rest(ts, 1),
    decreases ts.len(),
{
    if ts.len() == 1 {
        assert(ts[0] + join_rest(ts, 1) =~= ts[0]);
    } else {
        lemma_join_spaces_head(ts.drop_first());
        lemma_join_rest_shift(ts, 2);
        assert(ts.drop_first()[0] == ts[1]);
        assert(join_rest(ts, 1) == seq![' '] + ts[1] + join_rest(ts, 2));
        assert(ts[0] + seq![' '] + (ts.drop_first()[0] + join_rest(ts.drop_first(), 1)) =~= ts[0]
            + (seq![' '] + ts[1] + join_rest(ts, 2)));
    }
}

/// The digit string for a draw below ten.
fn digit_str(i: u8) -> (r: &'static str)
    requires
        i < 10,
    ensures
        r@ == seq![digit_char(i as int)],
{
    proof {
        reveal_strlit("0");
        reveal_strlit("1");
        reveal_strlit("2");
        reveal_strlit("3");
        reveal_strlit("4");
        reveal_strlit("5");
        reveal_strlit("6");
        reveal_strlit("7");
        reveal_strlit("8");
        reveal_strlit("9");
    }
    let r = match i {
        0 => "0",
        1 => "1",
        2 => "2",
        3 => "3",
        4 => "4",
        5 => "5",
        6 => "6",
        7 => "7",
        8 => "8",
        _ => "9",
    };
    proof {
        assert(r@ =~= seq![digit_char(i as int)]);
    }
    r
}

/// The symbol string for a draw below six.
fn symbol_str(i: u8) -> (r: &'static str)
    requires
        i < 6,
    ensures
        r@ == seq![symbol_char(i as int)],
{
    proof {
        reveal_strlit("@");
        reveal_strlit("#");
        reveal_strlit("$");
        reveal_strlit("&");
        reveal_strlit("%");
        reveal_strlit("!");
    }
    let r = match i {
        0 => "@",
        1 => "#",
        2 => "$",
        3 => "&",
        4 => "%",
        _ => "!",
    };
    proof {
        assert(r@ =~= seq![symbol_char(i as int)]);
    }
    r
}

/// Builds the digit/symbol token for the given draws.
fn build_insertion(
    add_digit: bool,
    add_symbol: bool,
    digit_idx: u8,
    symbol_idx: u8,
    digit_first: bool,
) -> (r: String)
    requires
        digit_idx < 10,
        symbol_idx < 6,
    ensures
        r@ == spec_insertion(
            add_digit,
            add_symbol,
            digit_idx as int,
            symbol_idx as int,
            digit_first,
        ),
{
    let mut s = String::new();
    if digit_first {
        if add_digit {
            s.append(digit_str(digit_idx));
        }
        if add_symbol {
            s.append(symbol_str(symbol_idx));
        }
    } else {
        if add_symbol {
            s.append(symbol_str(symbol_idx));
        }
        if add_digit {
            s.append(digit_str(digit_idx));
        }
    }
    proof {
        assert(s@ =~= spec_insertion(
            add_digit,
            add_symbol,
            digit_idx as int,
            symbol_idx as int,
            digit_first,
        ));
    }
    s
}

/// Renders the token list for the given items and draws.
fn render_tokens(
    items: &Vec<String>,
    chosen: usize,
    cap: bool,
    ins: &String,
    has_ins: bool,
    before: bool,
) -> (r: Vec<String>)
    requires
        chosen < items@.len(),
        has_ins == (ins@.len() > 0),
    ensures
        r@.map_values(|t: String| t@) == tokens_from(
            items@.map_values(|w: String| w@),
            chosen as int,
            cap,
            ins@,
            before,
            0,
        ),
{
    let ghost iv = items@.map_values(|w: String| w@);
    let mut out: Vec<String> = Vec::new();
    let mut i: usize = 0;
    proof {
        assert(out@.map_values(|t: String| t@) =~= Seq::<Seq<char>>::empty());
    }
    while i < items.len()
        invariant
            iv == items@.map_values(|w: String| w@),
            chosen < items@.len(),
            has_ins == (ins@.len() > 0),
            i <= items@.len(),
            tokens_from(iv, chosen as int, cap, ins@, before, 0) == out@.map_values(
                |t: String| t@,
            ) + tokens_from(iv, chosen as int, cap, ins@, before, i as int),
        decreases items@.len() - i,
    {
        let ghost out0 = out@;
        let base: String = if i == chosen && cap {
            ascii_upper(items[i].as_str())
        } else {
            items[i].clone()
        };
        proof {
            assert(iv[i as int] == items@[i as int]@);
            if i == chosen && cap {
                assert(base@ == upper_seq(iv[i as int]));
            } else {
                assert(base@ == iv[i as int]);
            }
        }
        if i == chosen && has_ins {
            if before {
                out.push(ins.clone());
                out.push(base);
            } else {
                out.push(base);
                out.push(ins.clone());
            }
            proof {
                assert(out@.map_values(|t: String| t@) =~= out0.map_values(|t: String| t@) + seq![
                    out@[out@.len() - 2]@,
                    out@[out@.len() - 1]@,
                ]);
            }
        } else {
            out.push(base);
            proof {
                assert(out@.map_values(|t: String| t@) =~= out0.map_values(|t: String| t@) + seq![
                    out@[out@.len() - 1]@,
                ]);
            }
        }
        i = i + 1;
        proof {
            let here = tokens_from(iv, chosen as int, cap, ins@, before, i as int - 1);
            let tail = tokens_from(iv, chosen as int, cap, ins@, before, i as int);
            assert(out0.map_values(|t: String| t@) + (here.subrange(
                0,
                here.len() - tail.len(),
            ) + tail) =~= out@.map_values(|t: String| t@) + tail);
        }
    }
    proof {
        assert(tokens_from(iv, chosen as int, cap, ins@, before, items@.len() as int)
            =~= Seq::<Seq<char>>::empty());
        assert(out@.map_values(|t: String| t@) + Seq::<Seq<char>>::empty() =~= out@.map_values(
            |t: String| t@,
        ));
    }
    out
}

/// Concatenates all tokens with nothing between them.
fn concat_all(tokens: &Vec<String>) -> (r: String)
    ensures
        r@ == concat_seqs(tokens@.map_values(|t: String| t@)),
{
    let ghost tv = tokens@.map_values(|t: String| t@);
    let mut acc = String::new();
    let mut i: usize = 0;
    proof {
        assert(tv.skip(0) =~= tv);
    }
    while i < tokens.len()
        invariant
            tv == tokens@.map_values(|t: String| t@),
            i <= tokens@.len(),
            concat_seqs(tv) == acc@ + concat_seqs(tv.skip(i as int)),
        decreases tokens@.len() - i,
    {
        acc.append(tokens[i].as_str());
        proof {
            assert(tv.skip(i as int)[0] == tv[i as int]);
            assert(tv[i as int] == tokens@[i as int]@);
            assert(tv.skip(i as int).drop_first() =~= tv.skip(i as int + 1));
        }
        i = i + 1;
    }
    proof {
        assert(concat_seqs(tv.skip(i as int)) =~= Seq::<char>::empty());
        assert(acc@ + Seq::<char>::empty() =~= acc@);
    }
    acc
}

/// Joins all tokens with single spaces.
fn join_all(tokens: &Vec<String>) -> (r: String)
    ensures
        r@ == join_spaces(tokens@.map_values(|t: String| t@)),
{
    let ghost tv = tokens@.map_values(|t: String| t@);
    if tokens.len() == 0 {
        return String::new();
    }
    let mut acc = String::new();
    acc.append(tokens[0].as_str());
    proof {
        lemma_join_spaces_head(tv);
        assert(tv[0] == tokens@[0]@);
        assert(acc@ =~= tv[0]);
    }
    let mut i: usize = 1;
    while i < tokens.len()
        invariant
            tv == tokens@.map_values(|t: String| t@),
            1 <= i <= tokens@.len(),
            join_spaces(tv) == acc@ + join_rest(tv, i as int),
        decreases tokens@.len() - i,
    {
        proof {
            reveal_strlit(" ");
        }
        acc.append(" ");
        acc.append(tokens[i].as_str());
        proof {
            assert(" "@ =~= seq![' ']);
            assert(tv[i as int] == tokens@[i as int]@);
            assert(join_rest(tv, i as int) == seq![' '] + tv[i as int] + join_rest(
                tv,
                i as int + 1,
            ));
        }
        i = i + 1;
    }
    proof {
        assert(join_rest(tv, i as int) =~= Seq::<char>::empty());
        assert(acc@ + Seq::<char>::empty() =~= acc@);
    }
    acc
}

/// Builds the dense password (prefixes run together) and the readable
/// passphrase (words joined by spaces): the chosen position may be
/// upper-cased, and the digit/symbol token lands beside it, the same
/// way in both strings.
pub fn convert_prefixes_to_password_and_passphrase(
    prefixes: &Vec<String>,
    words: &Vec<String>,
    add_digit: bool,
    add_capital_letter: bool,
    add_symbol: bool,
    chosen: usize,
    insert_before: bool,
    digit_idx: u8,
    symbol_idx: u8,
    digit_first: bool,
) -> (r: (String, String))
    requires
        1 <= prefixes@.len(),
        words@.len() == prefixes@.len(),
        chosen < prefixes@.len(),
        digit_idx < 10,
        symbol_idx < 6,
    ensures
        ({
            let ins = spec_insertion(
                add_digit,
                add_symbol,
                digit_idx as int,
                symbol_idx as int,
                digit_first,
            );
            &&& r.0@ == concat_seqs(
                tokens_from(
                    prefixes@.map_values(|w: String| w@),
                    chosen as int,
                    add_capital_letter,
                    ins,
                    insert_before,
                    0,
                ),
            )
            &&& r.1@ == join_spaces(
                tokens_from(
                    words@.map_values(|w: String| w@),
                    chosen as int,
                    add_capital_letter,
                    ins,
                    insert_before,
                    0,
                ),
            )
        }),
{
    let ins = build_insertion(add_digit, add_symbol, digit_idx, symbol_idx, digit_first);
    let has_ins = add_digit || add_symbol;
    proof {
        lemma_insertion_charset(
            add_digit,
            add_symbol,
            digit_idx as int,
            symbol_idx as int,
            digit_first,
        );
    }
    let pw_tokens = render_tokens(
        prefixes,
        chosen,
        add_capital_letter,
        &ins,
        has_ins,
        insert_before,
    );
    let pp_tokens = render_tokens(words, chosen, add_capital_letter, &ins, has_ins, insert_before);
    let password = concat_all(&pw_tokens);
    let passphrase = join_all(&pp_tokens);
    (password, passphrase)
}

} // verus!
