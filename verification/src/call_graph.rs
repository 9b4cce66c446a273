//! Reading the call graph out of the disassembly that `objdump -drw` prints
//! for an object file: each function starts at a line holding `00000000 <name>:`,
//! each call shows the `bl` encoding `f7ff fffe` followed by the relocation to
//! the callee, and a blank line ends the function.
use vstd::prelude::*;
use crate::symtab::SymbolTable;
use crate::text::{
    char_pos, split, join, contains, lines, views, lex_lt, strictly_sorted, chars_of, string_from,
    split_chars, join_strs, lines_of, contains_chars, lex_less, lemma_split_nonempty,
    lemma_lex_lt_transitive, lemma_lex_lt_total,
};

verus! {

/// Where the name on a symbol line starts: after the first `<`, or after the
/// first character where there is no `<`.
pub open spec fn symbol_start(line: Seq<char>) -> int {
    if char_pos(line, '<') < line.len() {
        char_pos(line, '<') as int + 1
    } else {
        1
    }
}

/// The name on a symbol line: from `symbol_start` to the first `>` (or the
/// end).
pub open spec fn symbol_in_line(line: Seq<char>) -> Seq<char> {
    line.subrange(symbol_start(line), char_pos(line, '>') as int)
}

/// A line whose name can be cut out: the name does not end before it starts,
/// and where there is no `<`, the first character takes one byte (the cut
/// starts at byte 1).
pub open spec fn symbol_line_ok(line: Seq<char>) -> bool {
    &&& symbol_start(line) <= char_pos(line, '>')
    &&& char_pos(line, '<') >= line.len() ==> (line[0] as int) < 128
}

/// The name of a function without the suffix gcc gives a clone specialised for
/// constant arguments: for a name holding `constprop`, everything before its
/// last `.`.
pub open spec fn sanitize(name: Seq<char>) -> Seq<char> {
    if contains(name, "constprop"@) {
        join(split(name, '.').drop_last(), "."@)
    } else {
        name
    }
}

/// `r` is the strictly sorted list of the distinct names in `c`.
pub open spec fn sorted_set_of(r: Seq<Seq<char>>, c: Seq<Seq<char>>) -> bool {
    strictly_sorted(r) && r.to_set() == c.to_set()
}

/// A line that starts a function.
pub open spec fn is_fn_start(line: Seq<char>) -> bool {
    contains(line, "00000000 <"@)
}

/// A line that calls another function.
pub open spec fn is_call(line: Seq<char>) -> bool {
    contains(line, "f7ff fffe"@)
}

/// The callee named by a call line: its last tab-separated column, sanitized.
pub open spec fn callee_of(line: Seq<char>) -> Seq<char> {
    sanitize(split(line, '\t').last())
}

/// Adds the function being read, if any, to the graph.
pub open spec fn close_node(
    g: Map<Seq<char>, Seq<Seq<char>>>,
    cur: Option<(Seq<char>, Seq<Seq<char>>)>,
) -> Map<Seq<char>, Seq<Seq<char>>> {
    match cur {
        Some((n, ch)) => g.insert(n, ch),
        None => g,
    }
}

/// The effect of one line of disassembly on the graph read so far and on the
/// function being read (its name and its callees, in call order).
pub open spec fn cg_step(
    st: (Map<Seq<char>, Seq<Seq<char>>>, Option<(Seq<char>, Seq<Seq<char>>)>),
    line: Seq<char>,
) -> (Map<Seq<char>, Seq<Seq<char>>>, Option<(Seq<char>, Seq<Seq<char>>)>) {
    let (g, cur) = st;
    if cur is Some && line.len() == 0 {
        (close_node(g, cur), None)
    } else if is_fn_start(line) {
        let n = symbol_in_line(line);
        if n.len() > 0 && n[0] == '.' {
            st
        } else {
            (g, Some((sanitize(n), Seq::empty())))
        }
    } else if is_call(line) {
        match cur {
            Some((n, ch)) => (g, Some((n, ch.push(callee_of(line))))),
            None => st,
        }
    } else {
        st
    }
}

/// The state after reading the lines in order.
pub open spec fn cg_run(ls: Seq<Seq<char>>) -> (
    Map<Seq<char>, Seq<Seq<char>>>,
    Option<(Seq<char>, Seq<Seq<char>>)>,
)
    decreases ls.len(),
{
    if ls.len() == 0 {
        (Map::empty(), None)
    } else {
        cg_step(cg_run(ls.drop_last()), ls.last())
    }
}

/// The callees of each function in a disassembly, in call order and with
/// repetitions.
pub open spec fn raw_call_graph(text: Seq<char>) -> Map<Seq<char>, Seq<Seq<char>>> {
    let (g, cur) = cg_run(lines(text));
    close_node(g, cur)
}

/// Every function start in the text has a name that can be cut out.
pub open spec fn disassembly_supported(text: Seq<char>) -> bool {
    forall|i: int|
        0 <= i < lines(text).len() && is_fn_start(#[trigger] lines(text)[i]) ==> symbol_line_ok(
            lines(text)[i],
        )
}

/// The table holds, for each function of `g`, its distinct callees in order.
pub open spec fn cleans(t: Map<Seq<char>, Seq<Seq<char>>>, g: Map<Seq<char>, Seq<Seq<char>>>) -> bool {
    &&& t.dom() == g.dom()
    &&& forall|k: Seq<char>| #[trigger] g.contains_key(k) ==> sorted_set_of(t[k], g[k])
}

/// Positions of the first `<` and of the first `>` (each the length where
/// there is none).
fn angle_positions(v: &Vec<char>) -> (r: (usize, usize))
    ensures
        r.0 == char_pos(v@, '<'),
        r.1 == char_pos(v@, '>'),
        r.0 <= v@.len(),
        r.1 <= v@.len(),
{
    let mut lt: usize = 0;
    while lt < v.len() && v[lt] != '<'
        invariant
            lt <= v.len(),
            forall|j: int| 0 <= j < lt ==> v@[j] != '<',
        decreases v.len() - lt,
    {
        lt += 1;
    }
    let mut gt: usize = 0;
    while gt < v.len() && v[gt] != '>'
        invariant
            gt <= v.len(),
            forall|j: int| 0 <= j < gt ==> v@[j] != '>',
        decreases v.len() - gt,
    {
        gt += 1;
    }
    proof {
        crate::text::lemma_char_pos(v@, '<', lt as int);
        crate::text::lemma_char_pos(v@, '>', gt as int);
    }
    (lt, gt)
}

/// Whether the name of a symbol line can be cut out (see `symbol_line_ok`).
fn symbol_line_is_ok(v: &Vec<char>) -> (r: bool)
    ensures
        r == symbol_line_ok(v@),
{
    let (lt, gt) = angle_positions(v);
    if lt < v.len() {
        lt + 1 <= gt
    } else {
        1 <= gt && v[0] < '\u{80}'
    }
}

/// The name between the first `<` and the first `>` (or the end) of a line.
fn name_from_cdasm_symbol_line(line: &str) -> (r: String)
    requires
        symbol_line_ok(line@),
    ensures
        r@ == symbol_in_line(line@),
{
    let v = chars_of(line);
    let (lt, gt) = angle_positions(&v);
    let start = if lt < v.len() {
        lt + 1
    } else {
        1
    };
    string_from(&v, start, gt)
}

/// The name of a function with a constant-propagation clone suffix removed
/// (see `sanitize`).
fn sanitize_symbol_name(name: &str) -> (r: String)
    ensures
        r@ == sanitize(name@),
{
    let v = chars_of(name);
    let pat = chars_of("constprop");
    if contains_chars(&v, &pat) {
        let mut parts = split_chars(&v, '.');
        proof {
            lemma_split_nonempty(name@, '.');
            assert(views(parts@).len() == parts@.len());
        }
        let ghost before = views(parts@);
        parts.pop();
        proof {
            assert(views(parts@) =~= before.drop_last());
        }
        join_strs(&parts, ".")
    } else {
        String::from_str(name)
    }
}

/// Puts `x` into a strictly sorted list of names, unless it is there already.
#[verifier::spinoff_prover]
fn insert_sorted(v: &mut Vec<String>, x: String)
    requires
        strictly_sorted(views(old(v)@)),
    ensures
        strictly_sorted(views(final(v)@)),
        views(final(v)@).to_set() == views(old(v)@).to_set().insert(x@),
{
    let xc = chars_of(x.as_str());
    let ghost vs = views(v@);
    let mut j: usize = 0;
    let mut found = false;
    while j < v.len() && !found
        invariant
            j <= v.len(),
            vs == views(v@),
            xc@ == x@,
            forall|k: int| 0 <= k < j ==> lex_lt(#[trigger] vs[k], x@),
            found ==> j < v.len() && !lex_lt(vs[j as int], x@),
        decreases v.len() - j + (if found { 0int } else { 1int }),
    {
        let cj = chars_of(v[j].as_str());
        proof {
            assert(vs[j as int] == v@[j as int]@);
        }
        if !lex_less(&cj, &xc) {
            found = true;
        } else {
            j += 1;
        }
    }
    proof {
        if j < v.len() {
            assert(vs[j as int] == v@[j as int]@);
        }
    }
    if j < v.len() && v[j] == x {
        proof {
            assert(vs.to_set().insert(x@) =~= vs.to_set()) by {
                assert(vs.contains(x@));
            }
        }
        return;
    }
    proof {
        if j < v.len() {
            lemma_lex_lt_total(vs[j as int], x@);
        }
    }
    v.insert(j, x);
    proof {
        let ws = views(v@);
        assert(ws =~= vs.insert(j as int, x@));
        assert forall|a: int, b: int| 0 <= a < b < ws.len() implies lex_lt(
            #[trigger] ws[a],
            #[trigger] ws[b],
        ) by {
            if b < j {
            } else if b == j {
            } else if a < j {
                assert(ws[a] == vs[a]);
                assert(ws[b] == vs[b - 1]);
            } else if a == j {
                assert(ws[b] == vs[b - 1]);
                if b - 1 > j {
                    lemma_lex_lt_transitive(x@, vs[j as int], vs[b - 1]);
                }
            } else {
                assert(ws[a] == vs[a - 1]);
                assert(ws[b] == vs[b - 1]);
            }
        }
        assert(ws.to_set() =~= vs.to_set().insert(x@)) by {
            assert forall|y: Seq<char>| ws.to_set().contains(y) <==> vs.to_set().insert(
                x@,
            ).contains(y) by {
                if ws.contains(y) {
                    let k = choose|k: int| 0 <= k < ws.len() && ws[k] == y;
                    if k < j {
                        assert(vs[k] == y);
                    } else if k > j {
                        assert(vs[k - 1] == y);
                    }
                }
                if vs.contains(y) {
                    let k = choose|k: int| 0 <= k < vs.len() && vs[k] == y;
                    if k < j {
                        assert(ws[k] == y);
                    } else {
                        assert(ws[k + 1] == y);
                    }
                }
                if y == x@ {
                    assert(ws[j as int] == y);
                }
            }
        }
    }
}

/// Sorts the callee names and drops repetitions (a function may call
/// another several times).
pub fn cleanup_children(children: &mut Vec<String>)
    ensures
        sorted_set_of(views(final(children)@), views(old(children)@)),
{
    let mut sorted: Vec<String> = Vec::new();
    let ghost cs = views(children@);
    let mut i: usize = 0;
    proof {
        assert(views(sorted@).to_set() =~= cs.take(0).to_set());
    }
    while i < children.len()
        invariant
            i <= children.len(),
            cs == views(children@),
            strictly_sorted(views(sorted@)),
            views(sorted@).to_set() == cs.take(i as int).to_set(),
        decreases children.len() - i,
    {
        let c = children[i].clone();
        proof {
            assert(cs[i as int] == c@);
            assert(cs.take(i + 1) =~= cs.take(i as int).push(c@));
            cs.take(i as int).lemma_push_to_set_commute(c@);
        }
        insert_sorted(&mut sorted, c);
        i += 1;
    }
    proof {
        assert(cs.take(children.len() as int) =~= cs);
    }
    *children = sorted;
}


/// The current function, as read so far, matches its description.
pub open spec fn cur_matches(
    cur: Option<(String, Vec<String>)>,
    c: Option<(Seq<char>, Seq<Seq<char>>)>,
) -> bool {
    match (cur, c) {
        (None, None) => true,
        (Some((n, ch)), Some((cn, cch))) => n@ == cn && views(ch@) == cch,
        _ => false,
    }
}

/// Adds the function being read, if any, to the table, with its callees
/// sorted and without repetitions.
#[verifier::spinoff_prover]
fn push_cur_node(
    t: &mut SymbolTable<Vec<String>>,
    cur: Option<(String, Vec<String>)>,
    Ghost(g): Ghost<Map<Seq<char>, Seq<Seq<char>>>>,
    Ghost(c): Ghost<Option<(Seq<char>, Seq<Seq<char>>)>>,
)
    requires
        old(t).wf(),
        cleans(old(t).map(), g),
        cur_matches(cur, c),
    ensures
        final(t).wf(),
        cleans(final(t).map(), close_node(g, c)),
{
    match cur {
        Some((n, ch)) => {
            let mut ch = ch;
            let ghost raw = views(ch@);
            cleanup_children(&mut ch);
            let ghost m0 = t.map();
            let ghost chv = views(ch@);
            proof {
                assert(ch.deep_view() =~= chv);
            }
            t.insert(n, ch);
            proof {
                let cn = n@;
                assert(close_node(g, c) == g.insert(cn, raw));
                assert(t.map().dom() =~= g.insert(cn, raw).dom());
                assert forall|k: Seq<char>| #[trigger] g.insert(cn, raw).contains_key(k) implies sorted_set_of(
                    t.map()[k],
                    g.insert(cn, raw)[k],
                ) by {
                    if k != cn {
                        assert(g.contains_key(k));
                        assert(t.map()[k] == m0[k]);
                    } else {
                        assert(t.map()[k] == chv);
                    }
                }
            }
        },
        None => {},
    }
}

/// The call graph in the text of a disassembly: for each function, the
/// functions it calls, sorted and without repetitions.
#[verifier::spinoff_prover]
pub fn call_graph_from_disassembly(text: &str) -> (t: SymbolTable<Vec<String>>)
    requires
        disassembly_supported(text@),
    ensures
        t.wf(),
        cleans(t.map(), raw_call_graph(text@)),
{
    let ls = lines_of(text);
    let ghost lv = views(ls@);
    let fn_pat = chars_of("00000000 <");
    let call_pat = chars_of("f7ff fffe");
    let mut t: SymbolTable<Vec<String>> = SymbolTable::new();
    let mut cur: Option<(String, Vec<String>)> = None;
    let mut i: usize = 0;
    proof {
        assert(lv.take(0) =~= Seq::<Seq<char>>::empty());
        assert(t.map().dom() =~= Map::<Seq<char>, Seq<Seq<char>>>::empty().dom());
    }
    while i < ls.len()
        invariant
            i <= ls.len(),
            lv == views(ls@),
            lv == lines(text@),
            disassembly_supported(text@),
            fn_pat@ == "00000000 <"@,
            call_pat@ == "f7ff fffe"@,
            t.wf(),
            cleans(t.map(), cg_run(lv.take(i as int)).0),
            cur_matches(cur, cg_run(lv.take(i as int)).1),
        decreases ls.len() - i,
    {
        let ghost st = cg_run(lv.take(i as int));
        let ghost line = lv[i as int];
        proof {
            assert(line == ls@[i as int]@);
            assert(lv.take(i + 1).drop_last() =~= lv.take(i as int));
            assert(lv.take(i + 1).last() == line);
            assert(cg_run(lv.take(i + 1)) == cg_step(st, line));
        }
        let lc = chars_of(ls[i].as_str());
        if cur.is_some() && lc.len() == 0 {
            let taken = cur;
            cur = None;
            push_cur_node(&mut t, taken, Ghost(st.0), Ghost(st.1));
        } else if contains_chars(&lc, &fn_pat) {
            proof {
                assert(is_fn_start(lines(text@)[i as int]));
            }
            let n = name_from_cdasm_symbol_line(ls[i].as_str());
            let nc = chars_of(n.as_str());
            if nc.len() > 0 && nc[0] == '.' {
            } else {
                let name = sanitize_symbol_name(n.as_str());
                let empty: Vec<String> = Vec::new();
                proof {
                    assert(views(empty@) =~= Seq::<Seq<char>>::empty());
                }
                cur = Some((name, empty));
            }
        } else if contains_chars(&lc, &call_pat) {
            let cols = split_chars(&lc, '\t');
            proof {
                lemma_split_nonempty(line, '\t');
                assert(views(cols@).len() == cols@.len());
                assert(views(cols@).last() == cols@.last()@);
            }
            let callee = sanitize_symbol_name(cols[cols.len() - 1].as_str());
            cur = match cur {
                Some((n, ch)) => {
                    let mut ch = ch;
                    let ghost before = views(ch@);
                    ch.push(callee);
                    proof {
                        assert(views(ch@) =~= before.push(callee_of(line)));
                    }
                    Some((n, ch))
                },
                None => None,
            };
        }
        i += 1;
    }
    proof {
        assert(lv.take(ls.len() as int) =~= lv);
    }
    let ghost st = cg_run(lv);
    push_cur_node(&mut t, cur, Ghost(st.0), Ghost(st.1));
    t
}


/// Sorting and deduplicating callees a second time changes nothing: a list
/// that is the sorted set of another is its own sorted set.
pub proof fn law_cleanup_idempotent(c: Seq<Seq<char>>, r1: Seq<Seq<char>>, r2: Seq<Seq<char>>)
    requires
        sorted_set_of(r1, c),
        sorted_set_of(r2, r1),
    ensures
        r2 == r1,
{
    crate::text::law_sorted_set_unique(r2, r1);
}

/// Whether every function start in the text has a name that can be cut out
/// (see `disassembly_supported`).
pub fn disassembly_is_supported(text: &str) -> (r: bool)
    ensures
        r == disassembly_supported(text@),
{
    let ls = lines_of(text);
    let ghost lv = views(ls@);
    let fn_pat = chars_of("00000000 <");
    let mut i: usize = 0;
    while i < ls.len()
        invariant
            i <= ls.len(),
            lv == views(ls@),
            lv == lines(text@),
            fn_pat@ == "00000000 <"@,
            forall|j: int| 0 <= j < i && is_fn_start(#[trigger] lv[j]) ==> symbol_line_ok(lv[j]),
        decreases ls.len() - i,
    {
        proof {
            assert(lv[i as int] == ls@[i as int]@);
        }
        let lc = chars_of(ls[i].as_str());
        if contains_chars(&lc, &fn_pat) && !symbol_line_is_ok(&lc) {
            return false;
        }
        i += 1;
    }
    true
}


/// The state after reading `ls`, starting from `st`.
pub open spec fn cg_fold(
    st: (Map<Seq<char>, Seq<Seq<char>>>, Option<(Seq<char>, Seq<Seq<char>>)>),
    ls: Seq<Seq<char>>,
) -> (Map<Seq<char>, Seq<Seq<char>>>, Option<(Seq<char>, Seq<Seq<char>>)>)
    decreases ls.len(),
{
    if ls.len() == 0 {
        st
    } else {
        cg_step(cg_fold(st, ls.drop_last()), ls.last())
    }
}

/// Reading `a` then `b` is reading `b` from the state `a` left.
proof fn lemma_cg_run_append(a: Seq<Seq<char>>, b: Seq<Seq<char>>)
    ensures
        cg_run(a + b) == cg_fold(cg_run(a), b),
    decreases b.len(),
{
    if b.len() == 0 {
        assert(a + b =~= a);
    } else {
        lemma_cg_run_append(a, b.drop_last());
        assert((a + b).drop_last() =~= a + b.drop_last());
        assert((a + b).last() == b.last());
    }
}

/// A call line read while no function is being read changes nothing.
pub proof fn law_stray_call_ignored(x: Seq<Seq<char>>, l: Seq<char>, y: Seq<Seq<char>>)
    requires
        x.len() == 0 || x.last().len() == 0,
        is_call(l),
        !is_fn_start(l),
    ensures
        cg_run(x + seq![l] + y) == cg_run(x + y),
{
    reveal_strlit("00000000 <");
    reveal_strlit("f7ff fffe");
    assert(cg_run(x).1 is None) by {
        if x.len() > 0 {
            let st = cg_run(x.drop_last());
            assert(!is_fn_start(x.last()));
            assert(!is_call(x.last()));
        }
    }
    assert(l.len() > 0);
    lemma_cg_run_append(x + seq![l], y);
    lemma_cg_run_append(x, y);
    assert((x + seq![l]).drop_last() =~= x);
    assert(cg_run(x + seq![l]) == cg_run(x));
}

/// The same of disassembly texts: a call line (holding neither `\n` nor
/// `\r`, and starting no function) put at the start of the text or just
/// after an empty line changes nothing of the call graph the text gives.
pub proof fn law_stray_call_text_ignored(a: Seq<char>, l: Seq<char>, b: Seq<char>)
    requires
        a.len() == 0 || a.last() == '\n',
        lines(a).len() == 0 || lines(a).last().len() == 0,
        !crate::text::has_char(l, '\n'),
        !crate::text::has_char(l, '\r'),
        is_call(l),
        !is_fn_start(l),
    ensures
        raw_call_graph(a + l + seq!['\n'] + b) == raw_call_graph(a + b),
{
    crate::text::lemma_lines_insert(a, l, b);
    law_stray_call_ignored(lines(a), l, lines(b));
}

/// A name that does not start with `.`.
pub open spec fn not_section(k: Seq<char>) -> bool {
    !(k.len() > 0 && k[0] == '.')
}

/// `sanitize` keeps the start of a name: what it gives is empty or begins
/// the name.
proof fn lemma_sanitize_prefix(n: Seq<char>)
    ensures
        sanitize(n).len() <= n.len(),
        sanitize(n) == n.take(sanitize(n).len() as int),
{
    if contains(n, "constprop"@) {
        reveal_strlit(".");
        assert("."@ =~= seq!['.']);
        let ps = split(n, '.');
        lemma_split_nonempty(n, '.');
        crate::text::law_split_join(n, '.');
        if ps.len() == 1 {
            assert(ps.drop_last() =~= Seq::<Seq<char>>::empty());
            assert(n.take(0) =~= Seq::<char>::empty());
        } else {
            let j = join(ps.drop_last(), seq!['.']);
            assert(join(ps, seq!['.']) == j + seq!['.'] + ps.last());
            assert(n.take(j.len() as int) =~= j);
        }
    } else {
        assert(n.take(n.len() as int) =~= n);
    }
}

/// Every function name and recorded key of a reading state avoids a leading `.`.
pub open spec fn state_not_section(
    st: (Map<Seq<char>, Seq<Seq<char>>>, Option<(Seq<char>, Seq<Seq<char>>)>),
) -> bool {
    &&& forall|k: Seq<char>| #[trigger] st.0.contains_key(k) ==> not_section(k)
    &&& st.1 matches Some((n, _)) ==> not_section(n)
}

proof fn lemma_cg_run_not_section(ls: Seq<Seq<char>>)
    ensures
        state_not_section(cg_run(ls)),
    decreases ls.len(),
{
    if ls.len() > 0 {
        lemma_cg_run_not_section(ls.drop_last());
        let st = cg_run(ls.drop_last());
        let line = ls.last();
        if !(st.1 is Some && line.len() == 0) && is_fn_start(line) {
            let n = symbol_in_line(line);
            if !(n.len() > 0 && n[0] == '.') {
                lemma_sanitize_prefix(n);
                let s = sanitize(n);
                if s.len() > 0 {
                    assert(s[0] == n.take(s.len() as int)[0]);
                }
            }
        }
    }
}

/// Section symbols never become functions: no function of the call graph
/// read from a disassembly has a name starting with `.` (and the table that
/// `call_graph_from_disassembly` returns has the same names).
pub proof fn law_no_section_functions(text: Seq<char>)
    ensures
        forall|k: Seq<char>| #[trigger] raw_call_graph(text).contains_key(k) ==> not_section(k),
{
    lemma_cg_run_not_section(lines(text));
}


/// The callees named by the call lines of a function's body, in order, with
/// repetitions: every call line counts, a call of the function itself too.
pub open spec fn block_calls(body: Seq<Seq<char>>) -> Seq<Seq<char>>
    decreases body.len(),
{
    if body.len() == 0 {
        Seq::empty()
    } else if is_call(body.last()) {
        block_calls(body.drop_last()).push(callee_of(body.last()))
    } else {
        block_calls(body.drop_last())
    }
}

/// A body: lines that neither end a function (they are not empty) nor start
/// another.
pub open spec fn is_body(body: Seq<Seq<char>>) -> bool {
    forall|j: int| 0 <= j < body.len() ==> (#[trigger] body[j]).len() > 0 && !is_fn_start(body[j])
}

proof fn lemma_fold_body(
    g: Map<Seq<char>, Seq<Seq<char>>>,
    n: Seq<char>,
    body: Seq<Seq<char>>,
)
    requires
        is_body(body),
    ensures
        cg_fold((g, Some((n, Seq::<Seq<char>>::empty()))), body) == (g, Some((n, block_calls(body)))),
    decreases body.len(),
{
    if body.len() > 0 {
        let p = body.drop_last();
        assert(is_body(p)) by {
            assert forall|j: int| 0 <= j < p.len() implies (#[trigger] p[j]).len() > 0
                && !is_fn_start(p[j]) by {
                assert(p[j] == body[j]);
            }
        }
        lemma_fold_body(g, n, p);
        assert(body.last() == body[body.len() - 1]);
    }
}

/// Reading a function: after its start line and its body, the function being
/// read is the one the start line names (without a constant-propagation
/// suffix), its callees are exactly the callees of its body's call lines, in
/// order, and the graph read before is unchanged.
pub proof fn law_block_callees(x: Seq<Seq<char>>, f: Seq<char>, body: Seq<Seq<char>>)
    requires
        is_fn_start(f),
        !(symbol_in_line(f).len() > 0 && symbol_in_line(f)[0] == '.'),
        is_body(body),
    ensures
        cg_run(x + seq![f] + body) == (
            cg_run(x).0,
            Some((sanitize(symbol_in_line(f)), block_calls(body))),
        ),
{
    reveal_strlit("00000000 <");
    assert(f.len() > 0);
    lemma_cg_run_append(x + seq![f], body);
    assert((x + seq![f]).drop_last() =~= x);
    assert((x + seq![f]).last() == f);
    lemma_fold_body(cg_run(x).0, sanitize(symbol_in_line(f)), body);
}

/// A function ended by an empty line is recorded with exactly the callees of
/// its body's call lines (sorted and without repetition in the table that
/// `call_graph_from_disassembly` returns).
pub proof fn law_block_recorded(x: Seq<Seq<char>>, f: Seq<char>, body: Seq<Seq<char>>, e: Seq<char>)
    requires
        is_fn_start(f),
        !(symbol_in_line(f).len() > 0 && symbol_in_line(f)[0] == '.'),
        is_body(body),
        e.len() == 0,
    ensures
        cg_run(x + seq![f] + body + seq![e]) == (
            cg_run(x).0.insert(sanitize(symbol_in_line(f)), block_calls(body)),
            None::<(Seq<char>, Seq<Seq<char>>)>,
        ),
{
    law_block_callees(x, f, body);
    let y = x + seq![f] + body;
    assert((y + seq![e]).drop_last() =~= y);
    assert((y + seq![e]).last() == e);
}

/// Every call line of a function's body puts its callee among the
/// function's callees, a call of the function itself included.
pub proof fn law_every_call_kept(x: Seq<Seq<char>>, f: Seq<char>, body: Seq<Seq<char>>, j: int)
    requires
        is_fn_start(f),
        !(symbol_in_line(f).len() > 0 && symbol_in_line(f)[0] == '.'),
        is_body(body),
        0 <= j < body.len(),
        is_call(body[j]),
    ensures
        cg_run(x + seq![f] + body).1 matches Some((_, ch)) && ch.contains(callee_of(body[j])),
{
    law_block_callees(x, f, body);
    lemma_block_calls_contains(body, j);
}

proof fn lemma_block_calls_contains(body: Seq<Seq<char>>, j: int)
    requires
        0 <= j < body.len(),
        is_call(body[j]),
    ensures
        block_calls(body).contains(callee_of(body[j])),
    decreases body.len(),
{
    let p = body.drop_last();
    if j < body.len() - 1 {
        assert(p[j] == body[j]);
        lemma_block_calls_contains(p, j);
        let k = choose|k: int| 0 <= k < block_calls(p).len() && block_calls(p)[k] == callee_of(p[j]);
        if is_call(body.last()) {
            assert(block_calls(body)[k] == block_calls(p)[k]);
        }
    } else {
        assert(body.last() == body[j]);
        assert(block_calls(body).last() == callee_of(body[j]));
        assert(block_calls(body)[block_calls(body).len() - 1] == callee_of(body[j]));
    }
}


/// What `sanitize` does: a name without `constprop` is kept; a name with it
/// loses its last `.` and what follows (it becomes empty where it has no
/// `.`).
pub proof fn law_sanitize(n: Seq<char>)
    ensures
        !contains(n, "constprop"@) ==> sanitize(n) == n,
        contains(n, "constprop"@) && crate::text::has_char(n, '.') ==> exists|rest: Seq<char>|
            !crate::text::has_char(rest, '.') && n == sanitize(n) + seq!['.'] + rest,
        contains(n, "constprop"@) && !crate::text::has_char(n, '.') ==> sanitize(n).len() == 0,
{
    if contains(n, "constprop"@) {
        reveal_strlit(".");
        assert("."@ =~= seq!['.']);
        let ps = split(n, '.');
        lemma_split_nonempty(n, '.');
        crate::text::law_split_join(n, '.');
        lemma_split_last_no_sep(n, '.');
        if ps.len() == 1 {
            assert(ps.drop_last() =~= Seq::<Seq<char>>::empty());
            assert(join(ps, seq!['.']) == ps[0]);
            if crate::text::has_char(n, '.') {
                let i = choose|i: int| 0 <= i < n.len() && n[i] == '.';
                assert(n == ps.last());
            }
        } else {
            let j = join(ps.drop_last(), seq!['.']);
            assert(join(ps, seq!['.']) == j + seq!['.'] + ps.last());
            assert(crate::text::has_char(n, '.')) by {
                assert(n[j.len() as int] == '.');
            }
        }
    }
}

/// The last piece of a split holds no separator, and there is more than one
/// piece exactly when the separator occurs.
proof fn lemma_split_last_no_sep(s: Seq<char>, c: char)
    ensures
        !crate::text::has_char(split(s, c).last(), c),
        split(s, c).len() == 1 ==> split(s, c)[0] == s,
    decreases s.len(),
{
    crate::text::lemma_char_pos_bounds(s, c);
    let i = char_pos(s, c);
    if i < s.len() {
        lemma_split_last_no_sep(s.skip(i as int + 1), c);
        lemma_split_nonempty(s.skip(i as int + 1), c);
        assert(split(s, c).last() == split(s.skip(i as int + 1), c).last());
    } else {
        if crate::text::has_char(s, c) {
            let j = choose|j: int| 0 <= j < s.len() && s[j] == c;
        }
    }
}

} // verus!
