//! The settings of a run and where its files live under the strack directory.
use vstd::prelude::*;

verus! {

/// The settings read from `in/strack_config.json`.
pub struct Config {
    pub enabled: bool,
    pub frame_cost: u32,
    pub allow_function_ptrs: bool,
    pub allow_recursion: bool,
    /// Functions whose worst-case stack usage the report lists.
    pub tracked_functions: Vec<String>,
}

/// A run: the strack directory and the settings read from it.
pub struct Context {
    pub strack_path: String,
    pub config: Config,
}

/// A path with one more component, as `Path::join` builds it on Unix: an
/// absolute component replaces the path, and a `/` separates the two unless
/// the path is empty or already ends in one.
pub open spec fn path_join(base: Seq<char>, comp: Seq<char>) -> Seq<char> {
    if comp.len() > 0 && comp[0] == '/' {
        comp
    } else if base.len() == 0 || base.last() == '/' {
        base + comp
    } else {
        base + seq!['/'] + comp
    }
}

/// `base` joined with `a`, then with `b`.
pub open spec fn path_join2(base: Seq<char>, a: Seq<char>, b: Seq<char>) -> Seq<char> {
    path_join(path_join(base, a), b)
}

/// Joins `comp` onto `base` (see `path_join`).
pub fn join_path(base: &str, comp: &str) -> (r: String)
    ensures
        r@ == path_join(base@, comp@),
{
    let bc = crate::text::chars_of(base);
    let cc = crate::text::chars_of(comp);
    if cc.len() > 0 && cc[0] == '/' {
        String::from_str(comp)
    } else if bc.len() == 0 || bc[bc.len() - 1] == '/' {
        let mut r = String::from_str(base);
        r.append(comp);
        r
    } else {
        let mut r = String::from_str(base);
        r.append("/");
        r.append(comp);
        proof {
            reveal_strlit("/");
            assert("/"@ =~= seq!['/']);
        }
        r
    }
}

impl Context {
    /// A run in the strack directory `strack_path` with the settings `config`.
    pub fn new(strack_path: &str, config: Config) -> (r: Context)
        ensures
            r.strack_path@ == strack_path@,
            r.config == config,
    {
        Context { strack_path: String::from_str(strack_path), config }
    }

    /// `in/strack_config.json` under `strack_path`.
    fn _config_json_path(strack_path: &str) -> (r: String)
        ensures
            r@ == path_join2(strack_path@, "in"@, "strack_config.json"@),
    {
        let p = join_path(strack_path, "in");
        join_path(p.as_str(), "strack_config.json")
    }

    /// The settings file.
    pub fn config_json_path(&self) -> (r: String)
        ensures
            r@ == path_join2(self.strack_path@, "in"@, "strack_config.json"@),
    {
        Context::_config_json_path(self.strack_path.as_str())
    }

    /// Where the stack usage read from the `.su` files is written.
    pub fn su_info_json_path(&self) -> (r: String)
        ensures
            r@ == path_join2(self.strack_path@, "local"@, "strack_su.json"@),
    {
        let p = join_path(self.strack_path.as_str(), "local");
        join_path(p.as_str(), "strack_su.json")
    }

    /// Where the call graph read from the object files is written.
    pub fn cg_info_json_path(&self) -> (r: String)
        ensures
            r@ == path_join2(self.strack_path@, "local"@, "strack_cg.json"@),
    {
        let p = join_path(self.strack_path.as_str(), "local");
        join_path(p.as_str(), "strack_cg.json")
    }

    /// Where the analysed function nodes are written.
    pub fn node_info_json_path(&self) -> (r: String)
        ensures
            r@ == path_join2(self.strack_path@, "out"@, "strack_fn_nodes.json"@),
    {
        let p = join_path(self.strack_path.as_str(), "out");
        join_path(p.as_str(), "strack_fn_nodes.json")
    }

    /// Where the report is written.
    pub fn report_json_path(&self) -> (r: String)
        ensures
            r@ == path_join2(self.strack_path@, "out"@, "strack_report.json"@),
    {
        let p = join_path(self.strack_path.as_str(), "out");
        join_path(p.as_str(), "strack_report.json")
    }
}

} // verus!
