//! Function nodes of the call graph and what is known of each one.
use vstd::prelude::*;
use crate::text::{split, split_str, views};

verus! {

/// Source language of a function.
#[derive(Clone, Copy, Debug, PartialEq, Eq, Structural)]
pub enum Lang {
    C,
    Cpp,
}

/// The name under which a language is written in the JSON files.
pub open spec fn lang_spec_name(l: Lang) -> Seq<char> {
    match l {
        Lang::C => "C"@,
        Lang::Cpp => "Cpp"@,
    }
}

/// The language named `s`, if `s` names one.
pub open spec fn lang_spec_from_name(s: Seq<char>) -> Option<Lang> {
    if s == "C"@ {
        Some(Lang::C)
    } else if s == "Cpp"@ {
        Some(Lang::Cpp)
    } else {
        None
    }
}

/// The name of a language as written in the JSON files ("C" or "Cpp").
pub fn lang_name(l: Lang) -> (r: String)
    ensures
        r@ == lang_spec_name(l),
{
    match l {
        Lang::C => String::from_str("C"),
        Lang::Cpp => String::from_str("Cpp"),
    }
}

/// Reads a language from its name; any name but "C" and "Cpp" is refused.
pub fn lang_from_name(s: &str) -> (r: Option<Lang>)
    ensures
        r == lang_spec_from_name(s@),
{
    let owned = String::from_str(s);
    if owned == String::from_str("C") {
        Some(Lang::C)
    } else if owned == String::from_str("Cpp") {
        Some(Lang::Cpp)
    } else {
        None
    }
}

/// The components of a path that name a file or directory: the pieces
/// between `/` that are neither empty nor `.`.
pub open spec fn named_components(pieces: Seq<Seq<char>>) -> Seq<Seq<char>>
    decreases pieces.len(),
{
    if pieces.len() == 0 {
        Seq::empty()
    } else {
        let rest = named_components(pieces.drop_last());
        let last = pieces.last();
        if last.len() == 0 || last == seq!['.'] {
            rest
        } else {
            rest.push(last)
        }
    }
}

/// The final component of a path, unless the path ends in `..` or has none.
pub open spec fn file_name(path: Seq<char>) -> Option<Seq<char>> {
    let comps = named_components(split(path, '/'));
    if comps.len() == 0 || comps.last() == seq!['.', '.'] {
        None
    } else {
        Some(comps.last())
    }
}

/// The final component of `path` (see `file_name`).
pub fn path_file_name(path: &str) -> (r: Option<String>)
    ensures
        r is Some <==> file_name(path@) is Some,
        r matches Some(n) ==> n@ == file_name(path@)->0,
{
    let pieces = split_str(path, '/');
    let ghost ps = views(pieces@);
    let mut last: Option<usize> = None;
    let mut i: usize = 0;
    while i < pieces.len()
        invariant
            i <= pieces.len(),
            ps == views(pieces@),
            ps == split(path@, '/'),
            match last {
                None => named_components(ps.take(i as int)).len() == 0,
                Some(j) => j < i && named_components(ps.take(i as int)).len() > 0
                    && named_components(ps.take(i as int)).last() == ps[j as int],
            },
        decreases pieces.len() - i,
    {
        let p = &pieces[i];
        let is_dot = p.eq(&String::from_str("."));
        proof {
            assert(ps.take(i + 1).drop_last() =~= ps.take(i as int));
            reveal_strlit(".");
            assert("."@ =~= seq!['.']);
        }
        if !p.as_str().is_empty() && !is_dot {
            last = Some(i);
        }
        i += 1;
    }
    proof {
        assert(ps.take(pieces.len() as int) =~= ps);
        reveal_strlit("..");
        assert(".."@ =~= seq!['.', '.']);
    }
    match last {
        None => None,
        Some(j) => {
            if pieces[j].eq(&String::from_str("..")) {
                None
            } else {
                Some(pieces[j].clone())
            }
        },
    }
}

/// The function name that a symbol stands for: C symbols are not mangled,
/// so the name is the symbol itself.
fn name_from_symbol(symbol: &str) -> (r: &str)
    ensures
        r@ == symbol@,
{
    symbol
}

/// Where a function comes from and what it is called.
#[derive(Clone)]
pub struct FnInfo {
    pub name: String,
    pub symbol: String,
    pub o_pathbuf: String,
    pub o_filename: String,
    pub lang: Lang,
}

impl FnInfo {
    /// The description of the function `symbol` found in the object file at
    /// `o_filepath`; the path must name a file.
    pub fn new(o_filepath: &str, symbol: &str) -> (r: FnInfo)
        requires
            file_name(o_filepath@) is Some,
        ensures
            r.name@ == symbol@,
            r.symbol@ == symbol@,
            r.o_pathbuf@ == o_filepath@,
            r.o_filename@ == file_name(o_filepath@)->0,
            r.lang == Lang::C,
    {
        let o_filename = match path_file_name(o_filepath) {
            Some(n) => n,
            None => String::new(),
        };
        FnInfo {
            name: String::from_str(name_from_symbol(symbol)),
            symbol: String::from_str(symbol),
            o_pathbuf: String::from_str(o_filepath),
            o_filename,
            lang: Lang::C,
        }
    }
}

/// Stack usage of a function's own frame, as the compiler reports it.
#[derive(Clone)]
pub struct LocalStackInfo {
    /// The kind of usage the compiler reports ("static", ...).
    pub stype: String,
    pub usage: u32,
}

impl DeepView for LocalStackInfo {
    type V = (Seq<char>, u32);

    open spec fn deep_view(&self) -> (Seq<char>, u32) {
        (self.stype@, self.usage)
    }
}

impl LocalStackInfo {
    /// A copy with the same kind and usage.
    pub fn duplicate(&self) -> (r: LocalStackInfo)
        ensures
            r.deep_view() == self.deep_view(),
    {
        LocalStackInfo { stype: self.stype.clone(), usage: self.usage }
    }
}

/// The worst-case stack usage of a function with everything it calls, and the
/// chain of calls below it that reaches that usage.
#[derive(Clone)]
pub struct MaxStackInfo {
    pub usage: u32,
    pub call_path: Vec<String>,
}

/// A function with its callees, resolved and unresolved, and its stack usage.
#[derive(Clone)]
pub struct FnNode {
    pub info: FnInfo,
    /// Names of the functions it calls.
    pub children: Vec<String>,
    /// Positions, among all nodes, of the callees that are nodes themselves.
    pub children_ids: Vec<usize>,
    pub local_stack: Option<LocalStackInfo>,
    pub max_stack: Option<MaxStackInfo>,
    /// Names of callees that are not nodes.
    pub children_missing: Vec<String>,
}

} // verus!
