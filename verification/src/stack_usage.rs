//! Reading the `.su` files that gcc writes with `-fstack-usage`: one line per
//! function, `file:line:col:symbol<TAB>bytes<TAB>kind`.
use vstd::prelude::*;
use crate::fn_node::LocalStackInfo;
use crate::symtab::SymbolTable;
use crate::text::{
    split, lines, has_char, views, chars_of, split_str, split_chars, lines_of, has_char_exec,
};

verus! {

/// `c` is one of `0` to `9`.
pub open spec fn is_digit(c: char) -> bool {
    '0' <= c && c <= '9'
}

/// The number that a string of decimal digits denotes.
pub open spec fn digits_value(d: Seq<char>) -> nat
    decreases d.len(),
{
    if d.len() == 0 {
        0
    } else {
        10 * digits_value(d.drop_last()) + (d.last() as nat - '0' as nat) as nat
    }
}

/// The part of a number's text after an optional leading `+`.
pub open spec fn unsigned_digits(s: Seq<char>) -> Seq<char> {
    if s.len() > 0 && s[0] == '+' {
        s.drop_first()
    } else {
        s
    }
}

/// What `str::parse::<u32>` gives: an optional `+`, then at least one decimal
/// digit and nothing else, of a value that fits in 32 bits.
pub open spec fn parse_u32(s: Seq<char>) -> Option<u32> {
    let d = unsigned_digits(s);
    if d.len() > 0 && (forall|i: int| 0 <= i < d.len() ==> is_digit(#[trigger] d[i]))
        && digits_value(d) <= u32::MAX {
        Some(digits_value(d) as u32)
    } else {
        None
    }
}

/// The entry that one line of a `.su` file gives, if it has three columns:
/// the symbol (what follows the last `:` of the first column), the kind of
/// usage (third column) and the usage in bytes (second column).
pub open spec fn su_entry(line: Seq<char>) -> Option<(Seq<char>, (Seq<char>, u32))> {
    let cols = split(line, '\t');
    if cols.len() == 3 {
        Some((split(cols[0], ':').last(), (cols[2], parse_u32(cols[1])->0)))
    } else {
        None
    }
}

/// A line that can be read: it names a C function (a `(` marks C++, which is
/// not handled) and, where it has three columns, its second is a number.
pub open spec fn su_line_supported(line: Seq<char>) -> bool {
    &&& !has_char(line, '(')
    &&& split(line, '\t').len() == 3 ==> parse_u32(split(line, '\t')[1]) is Some
}

/// Every line of the text can be read.
pub open spec fn su_text_supported(text: Seq<char>) -> bool {
    forall|i: int| 0 <= i < lines(text).len() ==> su_line_supported(#[trigger] lines(text)[i])
}

/// The stack usage per symbol that a sequence of lines gives; a later line for
/// a symbol replaces an earlier one.
pub open spec fn su_map(ls: Seq<Seq<char>>) -> Map<Seq<char>, (Seq<char>, u32)>
    decreases ls.len(),
{
    if ls.len() == 0 {
        Map::empty()
    } else {
        let m = su_map(ls.drop_last());
        match su_entry(ls.last()) {
            Some((sym, info)) => m.insert(sym, info),
            None => m,
        }
    }
}

/// Reads a decimal number as `str::parse::<u32>` does.
#[verifier::spinoff_prover]
pub fn parse_u32_exec(s: &str) -> (r: Option<u32>)
    ensures
        r == parse_u32(s@),
{
    let v = chars_of(s);
    let start: usize = if v.len() > 0 && v[0] == '+' {
        1
    } else {
        0
    };
    let ghost d = v@.skip(start as int);
    proof {
        if start == 1 {
            assert(d =~= v@.drop_first());
        } else {
            assert(d =~= v@);
        }
        assert(d == unsigned_digits(s@));
    }
    if start >= v.len() {
        return None;
    }
    let mut acc: u64 = 0;
    let mut i: usize = start;
    while i < v.len()
        invariant
            start <= i <= v.len(),
            start < v.len(),
            v@ == s@,
            d == unsigned_digits(s@),
            d == v@.skip(start as int),
            acc == digits_value(v@.subrange(start as int, i as int)),
            acc <= u32::MAX,
            forall|j: int| start <= j < i ==> is_digit(#[trigger] v@[j]),
        decreases v.len() - i,
    {
        let c = v[i];
        if c < '0' || c > '9' {
            proof {
                assert(d[i - start] == c);
                assert(!is_digit(c));
                assert(!is_digit(d[i - start]));
                assert(!(forall|j: int| 0 <= j < d.len() ==> is_digit(#[trigger] d[j])));
                assert(parse_u32(s@) is None);
            }
            return None;
        }
        let digit = (c as u32 - '0' as u32) as u64;
        proof {
            assert(v@.subrange(start as int, i + 1).drop_last() =~= v@.subrange(
                start as int,
                i as int,
            ));
            assert(digit == (c as nat - '0' as nat));
        }
        acc = acc * 10 + digit;
        i += 1;
        if acc > 0xFFFF_FFFFu64 {
            proof {
                assert(v@.subrange(start as int, i as int) =~= d.take(i - start));
                if forall|j: int| 0 <= j < d.len() ==> is_digit(#[trigger] d[j]) {
                    lemma_digits_value_grows(v@.subrange(start as int, i as int), d);
                    assert(digits_value(d) > u32::MAX);
                }
                assert(parse_u32(s@) is None);
            }
            return None;
        }
    }
    proof {
        assert(v@.subrange(start as int, v.len() as int) =~= d);
        assert forall|j: int| 0 <= j < d.len() implies is_digit(#[trigger] d[j]) by {
            assert(d[j] == v@[j + start]);
        }
    }
    Some(acc as u32)
}

/// A longer run of digits denotes at least as large a number.
proof fn lemma_digits_value_grows(p: Seq<char>, d: Seq<char>)
    requires
        p.len() <= d.len(),
        p == d.take(p.len() as int),
        forall|i: int| 0 <= i < d.len() ==> is_digit(#[trigger] d[i]),
    ensures
        digits_value(p) <= digits_value(d),
    decreases d.len() - p.len(),
{
    if p.len() < d.len() {
        let q = d.take(p.len() as int + 1);
        assert(q.drop_last() =~= p);
        assert(is_digit(d[p.len() as int]));
        assert(digits_value(q) >= digits_value(p));
        lemma_digits_value_grows(q, d);
    } else {
        assert(p =~= d);
    }
}

/// The entry that one line gives (see `su_entry`).
pub fn su_line_entry(line: &str) -> (r: Option<(String, LocalStackInfo)>)
    requires
        su_line_supported(line@),
    ensures
        match su_entry(line@) {
            Some((sym, info)) => r matches Some((s, l)) && s@ == sym && l.stype@ == info.0
                && l.usage == info.1,
            None => r is None,
        },
{
    let cols = split_str(line, '\t');
    proof {
        assert(views(cols@).len() == cols@.len());
    }
    if cols.len() != 3 {
        return None;
    }
    proof {
        assert(views(cols@)[0] == cols@[0]@);
        assert(views(cols@)[1] == cols@[1]@);
        assert(views(cols@)[2] == cols@[2]@);
    }
    let parts = split_str(cols[0].as_str(), ':');
    proof {
        assert(views(parts@).len() == parts@.len());
        assert(split(cols@[0]@, ':').len() > 0) by {
            crate::text::lemma_split_nonempty(cols@[0]@, ':');
        }
        assert(views(parts@).last() == parts@.last()@);
    }
    let sym = parts[parts.len() - 1].clone();
    let usage = match parse_u32_exec(cols[1].as_str()) {
        Some(u) => u,
        None => 0,
    };
    Some((sym, LocalStackInfo { stype: cols[2].clone(), usage }))
}

/// The stack usage per symbol in the text of a `.su` file: one entry per
/// symbol, a later line replacing an earlier one.
#[verifier::spinoff_prover]
pub fn stack_usage_from_su_text(text: &str) -> (t: SymbolTable<LocalStackInfo>)
    requires
        su_text_supported(text@),
    ensures
        t.wf(),
        t.map() == su_map(lines(text@)),
{
    let ls = lines_of(text);
    let ghost lv = views(ls@);
    let mut t: SymbolTable<LocalStackInfo> = SymbolTable::new();
    let mut i: usize = 0;
    proof {
        assert(lv.take(0) =~= Seq::<Seq<char>>::empty());
    }
    while i < ls.len()
        invariant
            i <= ls.len(),
            lv == views(ls@),
            lv == lines(text@),
            su_text_supported(text@),
            t.wf(),
            t.map() == su_map(lv.take(i as int)),
        decreases ls.len() - i,
    {
        proof {
            assert(lv[i as int] == ls@[i as int]@);
            assert(su_line_supported(lines(text@)[i as int]));
            assert(lv.take(i + 1).drop_last() =~= lv.take(i as int));
            assert(lv.take(i + 1).last() == lv[i as int]);
        }
        match su_line_entry(ls[i].as_str()) {
            Some((sym, info)) => {
                t.insert(sym, info);
            },
            None => {},
        }
        i += 1;
    }
    proof {
        assert(lv.take(ls.len() as int) =~= lv);
    }
    t
}

/// Whether every line of the text can be read (see `su_text_supported`).
pub fn su_text_is_supported(text: &str) -> (r: bool)
    ensures
        r == su_text_supported(text@),
{
    let ls = lines_of(text);
    let ghost lv = views(ls@);
    let mut i: usize = 0;
    while i < ls.len()
        invariant
            i <= ls.len(),
            lv == views(ls@),
            lv == lines(text@),
            forall|j: int| 0 <= j < i ==> su_line_supported(#[trigger] lv[j]),
        decreases ls.len() - i,
    {
        proof {
            assert(lv[i as int] == ls@[i as int]@);
        }
        let chars = chars_of(ls[i].as_str());
        if has_char_exec(&chars, '(') {
            return false;
        }
        let cols = split_chars(&chars, '\t');
        proof {
            assert(views(cols@).len() == cols@.len());
        }
        if cols.len() == 3 {
            proof {
                assert(views(cols@)[1] == cols@[1]@);
            }
            if parse_u32_exec(cols[1].as_str()).is_none() {
                return false;
            }
        }
        i += 1;
    }
    true
}


/// The effect of one line on the stack usage read so far.
pub open spec fn su_step(m: Map<Seq<char>, (Seq<char>, u32)>, line: Seq<char>) -> Map<
    Seq<char>,
    (Seq<char>, u32),
> {
    match su_entry(line) {
        Some((sym, info)) => m.insert(sym, info),
        None => m,
    }
}

/// The stack usage after reading `ls`, starting from `m`.
pub open spec fn su_fold(m: Map<Seq<char>, (Seq<char>, u32)>, ls: Seq<Seq<char>>) -> Map<
    Seq<char>,
    (Seq<char>, u32),
>
    decreases ls.len(),
{
    if ls.len() == 0 {
        m
    } else {
        su_step(su_fold(m, ls.drop_last()), ls.last())
    }
}

/// Reading `a` then `b` is reading `b` from what `a` gave.
proof fn lemma_su_map_append(a: Seq<Seq<char>>, b: Seq<Seq<char>>)
    ensures
        su_map(a + b) == su_fold(su_map(a), b),
    decreases b.len(),
{
    if b.len() == 0 {
        assert(a + b =~= a);
    } else {
        lemma_su_map_append(a, b.drop_last());
        assert((a + b).drop_last() =~= a + b.drop_last());
        assert((a + b).last() == b.last());
    }
}

/// A line that gives no entry (such as an empty line, or one without three
/// tab-separated columns), put anywhere among the lines, changes nothing.
pub proof fn law_rejected_su_line_ignored(x: Seq<Seq<char>>, l: Seq<char>, y: Seq<Seq<char>>)
    requires
        su_entry(l) is None,
    ensures
        su_map(x + seq![l] + y) == su_map(x + y),
{
    lemma_su_map_append(x + seq![l], y);
    lemma_su_map_append(x, y);
    assert((x + seq![l]).drop_last() =~= x);
    assert(su_map(x + seq![l]) == su_map(x));
}

/// The same of `.su` texts: a line (holding neither `\n` nor `\r`) that gives
/// no entry, put into the text at the start of one of its lines, changes
/// nothing of what the text gives.
pub proof fn law_rejected_su_text_line_ignored(a: Seq<char>, l: Seq<char>, b: Seq<char>)
    requires
        a.len() == 0 || a.last() == '\n',
        !has_char(l, '\n'),
        !has_char(l, '\r'),
        su_entry(l) is None,
    ensures
        su_map(lines(a + l + seq!['\n'] + b)) == su_map(lines(a + b)),
{
    crate::text::lemma_lines_insert(a, l, b);
    law_rejected_su_line_ignored(lines(a), l, lines(b));
}


/// Every line with three tab-separated columns whose second is a number
/// records, for the symbol after the last `:` of its first column, that
/// number of bytes (0 included) and the kind in its third column; a later
/// line for the same symbol then replaces it.
pub proof fn law_three_columns_give_entry(x: Seq<Seq<char>>, l: Seq<char>)
    requires
        split(l, '\t').len() == 3,
        parse_u32(split(l, '\t')[1]) is Some,
    ensures
        su_map(x.push(l)).contains_key(split(split(l, '\t')[0], ':').last()),
        su_map(x.push(l))[split(split(l, '\t')[0], ':').last()] == (
            split(l, '\t')[2],
            parse_u32(split(l, '\t')[1])->0,
        ),
{
    assert(x.push(l).drop_last() =~= x);
    assert(x.push(l).last() == l);
}

/// The same of `.su` texts: a last line (holding neither `\n` nor `\r`) with
/// three columns whose second is a number gives its symbol that usage.
pub proof fn law_su_text_line_gives_entry(a: Seq<char>, l: Seq<char>)
    requires
        a.len() == 0 || a.last() == '\n',
        !has_char(l, '\n'),
        !has_char(l, '\r'),
        split(l, '\t').len() == 3,
        parse_u32(split(l, '\t')[1]) is Some,
    ensures
        su_map(lines(a + l + seq!['\n'])).contains_key(split(split(l, '\t')[0], ':').last()),
        su_map(lines(a + l + seq!['\n']))[split(split(l, '\t')[0], ':').last()] == (
            split(l, '\t')[2],
            parse_u32(split(l, '\t')[1])->0,
        ),
{
    let e = Seq::<char>::empty();
    crate::text::lemma_lines_insert(a, l, e);
    assert(a + l + seq!['\n'] + e =~= a + l + seq!['\n']);
    assert(lines(e) =~= Seq::<Seq<char>>::empty());
    assert(lines(a) + seq![l] + lines(e) =~= lines(a).push(l));
    law_three_columns_give_entry(lines(a), l);
}

} // verus!
