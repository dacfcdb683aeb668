use vstd::prelude::*;
use std::sync::Arc;
use crate::path::AbsPath;

verus! {

// Discovery of the configuration file that governs a directory: the caller
// reads the candidate files (that part is I/O and lives with the host), and
// the decision over what was found is made here.

/// The flavour of defaults the tool runs under.
#[derive(Clone, Copy, Debug, PartialEq, Eq, Structural)]
pub enum Mode {
    Standard,
    Mypy,
}

/// The options a configuration yields; the mode is the part the discovery
/// logic decides.
pub struct ProjectOptions {
    pub mode: Mode,
}

impl ProjectOptions {
    pub fn default_for_mode(mode: Mode) -> (r: ProjectOptions)
        ensures
            r.mode == mode,
    {
        ProjectOptions { mode }
    }

    pub fn mypy_default() -> (r: ProjectOptions)
        ensures
            r.mode == Mode::Mypy,
    {
        ProjectOptions { mode: Mode::Mypy }
    }
}

/// How diagnostics are rendered; carried alongside the chosen options.
pub struct DiagnosticConfig {
    pub show_error_codes: bool,
}

impl DiagnosticConfig {
    pub fn new() -> (r: DiagnosticConfig)
        ensures
            r.show_error_codes == false,
    {
        DiagnosticConfig { show_error_codes: false }
    }
}

/// What configuration discovery settled on: the options, the diagnostic
/// rendering, the config file it came from (if any file governed), and the
/// directory most probably meant as the project base.
pub struct FoundConfig {
    pub project_options: ProjectOptions,
    pub diagnostic_config: DiagnosticConfig,
    pub config_path: Option<Arc<AbsPath>>,
    pub most_probable_base: Arc<AbsPath>,
}

/// The configuration used when no config file governs: defaults for the
/// requested mode, based at the current directory.
pub fn default_config(
    mode: Option<Mode>,
    config_path: Option<Arc<AbsPath>>,
    current_dir: Arc<AbsPath>,
) -> (r: FoundConfig)
    ensures
        r.project_options.mode == (match mode {
            Some(m) => m,
            None => Mode::Standard,
        }),
        r.diagnostic_config.show_error_codes == false,
        (match (r.config_path, config_path) {
            (Some(a), Some(b)) => a@ == b@,
            (None, None) => true,
            _ => false,
        }),
        r.most_probable_base@ == current_dir@,
{
    let m = match mode {
        Some(m) => m,
        None => Mode::Standard,
    };
    FoundConfig {
        project_options: ProjectOptions::default_for_mode(m),
        diagnostic_config: DiagnosticConfig::new(),
        config_path,
        most_probable_base: current_dir,
    }
}

/// The candidate file names configuration discovery probes, in priority
/// order: the pyproject file first, then the mypy configurations.
pub open spec fn spec_config_file_name(i: int) -> Seq<char> {
    if i == 0 {
        "pyproject.toml"@
    } else if i == 1 {
        "mypy.ini"@
    } else if i == 2 {
        ".mypy.ini"@
    } else {
        "setup.cfg"@
    }
}

pub fn config_file_name(i: usize) -> (r: &'static str)
    requires
        i < 4,
    ensures
        r@ == spec_config_file_name(i as int),
{
    if i == 0 {
        "pyproject.toml"
    } else if i == 1 {
        "mypy.ini"
    } else if i == 2 {
        ".mypy.ini"
    } else {
        "setup.cfg"
    }
}

/// What probing one candidate file produced: no file, a file that could not
/// be read or parsed, or a file whose content did or did not yield options.
#[derive(Clone, Copy, Debug, PartialEq, Eq, Structural)]
pub enum ConfigScan {
    Missing,
    Unreadable,
    Found { has_options: bool },
}

/// Whether the candidate at position `i` settles the search: it yielded
/// options, or it is one of the two mypy configurations, which govern even
/// without an options section.
pub open spec fn spec_scan_wins(i: int, s: ConfigScan) -> bool {
    s matches ConfigScan::Found { has_options } && (has_options || i == 1 || i == 2)
}

/// The first candidate that fails or wins, scanned in priority order:
/// a failure aborts the search, a winner ends it.
pub open spec fn spec_choose_from(scans: Seq<ConfigScan>, i: int) -> Result<Option<int>, int>
    decreases scans.len() - i,
{
    if i < 0 || i >= scans.len() {
        Ok(None)
    } else if scans[i] is Unreadable {
        Err(i)
    } else if spec_scan_wins(i, scans[i]) {
        Ok(Some(i))
    } else {
        spec_choose_from(scans, i + 1)
    }
}

/// Which candidate governs the directory: the first winner in priority
/// order; failing that, the pyproject file when it parsed and carries the
/// tool's own table; failing that, none. A candidate that exists but cannot
/// be read or parsed aborts the search with its position.
pub open spec fn spec_choose_config(scans: Seq<ConfigScan>, pyproject_has_zuban: bool) -> Result<
    Option<int>,
    int,
> {
    match spec_choose_from(scans, 0) {
        Err(i) => Err(i),
        Ok(Some(i)) => Ok(Some(i)),
        Ok(None) => {
            if pyproject_has_zuban && scans.len() > 0 && scans[0] matches ConfigScan::Found {
                has_options: _,
            } {
                Ok(Some(0int))
            } else {
                Ok(None)
            }
        },
    }
}

fn choose_from(scans: &Vec<ConfigScan>, i: usize) -> (r: Result<Option<usize>, usize>)
    requires
        i <= scans@.len(),
    ensures
        (match r {
            Ok(Some(k)) => spec_choose_from(scans@, i as int) == Ok::<Option<int>, int>(
                Some(k as int),
            ),
            Ok(None) => spec_choose_from(scans@, i as int) == Ok::<Option<int>, int>(None),
            Err(k) => spec_choose_from(scans@, i as int) == Err::<Option<int>, int>(k as int),
        }),
    decreases scans@.len() - i,
{
    if i == scans.len() {
        return Ok(None);
    }
    let s = scans[i];
    match s {
        ConfigScan::Unreadable => Err(i),
        ConfigScan::Found { has_options } => {
            if has_options || i == 1 || i == 2 {
                Ok(Some(i))
            } else {
                choose_from(scans, i + 1)
            }
        },
        ConfigScan::Missing => choose_from(scans, i + 1),
    }
}

/// Which candidate configuration governs, given what probing each candidate
/// produced and whether the pyproject file carries the tool's own table.
pub fn choose_config(scans: &Vec<ConfigScan>, pyproject_has_zuban: bool) -> (r: Result<
    Option<usize>,
    usize,
>)
    ensures
        (match r {
            Ok(Some(k)) => spec_choose_config(scans@, pyproject_has_zuban) == Ok::<
                Option<int>,
                int,
            >(Some(k as int)),
            Ok(None) => spec_choose_config(scans@, pyproject_has_zuban) == Ok::<
                Option<int>,
                int,
            >(None),
            Err(k) => spec_choose_config(scans@, pyproject_has_zuban) == Err::<Option<int>, int>(
                k as int,
            ),
        }),
{
    match choose_from(scans, 0) {
        Err(i) => Err(i),
        Ok(Some(i)) => Ok(Some(i)),
        Ok(None) => {
            if pyproject_has_zuban && scans.len() > 0 {
                let first = scans[0];
                if first matches ConfigScan::Found { has_options: _ } {
                    return Ok(Some(0));
                }
            }
            Ok(None)
        },
    }
}

/// `needle` occurs contiguously somewhere in `hay`.
pub open spec fn spec_contains(hay: Seq<char>, needle: Seq<char>) -> bool {
    exists|i: int|
        0 <= i && i + needle.len() <= hay.len() && #[trigger] hay.subrange(i, i + needle.len())
            == needle
}

/// Whether `needle` occurs contiguously in `hay`.
pub fn contains_text(hay: &str, needle: &str) -> (r: bool)
    ensures
        r == spec_contains(hay@, needle@),
{
    let hv = crate::path::str_to_chars(hay);
    let nv = crate::path::str_to_chars(needle);
    let hn = hv.len();
    let nn = nv.len();
    if nn > hn {
        return false;
    }
    if nn == 0 {
        proof {
            assert(spec_contains(hay@, needle@)) by {
                assert(hay@.subrange(0, 0 + needle@.len() as int) =~= needle@);
            }
        }
        return true;
    }
    let mut i: usize = 0;
    while i <= hn - nn
        invariant
            1 <= nn <= hn,
            i <= hn - nn + 1,
            hn == hv@.len(),
            nn == nv@.len(),
            hv@ == hay@,
            nv@ == needle@,
            forall|m: int|
                0 <= m < i ==> #[trigger] hay@.subrange(m, m + needle@.len()) != needle@,
        decreases hn - nn - i + 1,
    {
        let mut j: usize = 0;
        let mut all = true;
        while all && j < nn
            invariant
                j <= nn,
                i + nn <= hn,
                hn == hv@.len(),
                nn == nv@.len(),
                hv@ == hay@,
                nv@ == needle@,
                all ==> forall|m: int| 0 <= m < j ==> hay@[i + m] == needle@[m],
                !all ==> hay@.subrange(i as int, i + needle@.len()) != needle@,
            decreases 2 * (nn - j) + (if all { 1int } else { 0int }),
        {
            if hv[i + j] != nv[j] {
                all = false;
                proof {
                    let sub = hay@.subrange(i as int, i + needle@.len());
                    assert(sub[j as int] == hay@[i + j as int]);
                }
            } else {
                j = j + 1;
            }
        }
        if all {
            proof {
                assert(hay@.subrange(i as int, i + needle@.len()) =~= needle@);
            }
            return true;
        }
        i = i + 1;
    }
    false
}

/// The scan outcome for one of the ini-style candidates: its text yields
/// options exactly when it carries a mypy section header.
pub fn ini_candidate_scan(content: &str) -> (r: ConfigScan)
    ensures
        r == (ConfigScan::Found { has_options: spec_contains(content@, "[mypy]"@) }),
{
    ConfigScan::Found { has_options: contains_text(content, "[mypy]") }
}

/// Whether the candidate at position `i` ends the probing: it either aborts
/// the search or wins it, so later candidates need not be read.
pub fn scan_settles(i: usize, s: ConfigScan) -> (r: bool)
    ensures
        r == (s is Unreadable || spec_scan_wins(i as int, s)),
{
    match s {
        ConfigScan::Unreadable => true,
        ConfigScan::Found { has_options } => has_options || i == 1 || i == 2,
        ConfigScan::Missing => false,
    }
}

/// Whether the text parses as a TOML document; a function of the text alone.
pub uninterp spec fn toml_parses(s: Seq<char>) -> bool;

/// Whether the parsed document carries a `tool.mypy` table.
pub uninterp spec fn toml_has_tool_mypy(s: Seq<char>) -> bool;

/// Whether the parsed document carries a `tool.zuban` table.
pub uninterp spec fn toml_has_tool_zuban(s: Seq<char>) -> bool;

/// What a pyproject file's text holds, as far as discovery cares.
#[derive(Clone, Copy, PartialEq, Eq, Structural)]
pub struct PyprojectScan {
    pub parsed: bool,
    pub has_mypy_table: bool,
    pub has_zuban_table: bool,
}

/// Relies on `toml_edit::DocumentMut`'s `FromStr` for parsing, and on
/// `toml_edit::Table::get` / `toml_edit::Item::get` for the two table
/// lookups; all three are deterministic in the text.
#[verifier::external_body]
fn scan_pyproject_raw(content: &str) -> (r: (bool, bool, bool))
    ensures
        r.0 == toml_parses(content@),
        r.0 ==> r.1 == toml_has_tool_mypy(content@),
        r.0 ==> r.2 == toml_has_tool_zuban(content@),
        !r.0 ==> r.1 == false && r.2 == false,
{
    match content.parse::<toml_edit::DocumentMut>() {
        Ok(doc) => {
            let tool = doc.get("tool");
            let mypy = tool.and_then(|t| t.get("mypy")).is_some();
            let zuban = tool.and_then(|t| t.get("zuban")).is_some();
            (true, mypy, zuban)
        },
        Err(_) => (false, false, false),
    }
}

/// Probes a pyproject file's text: whether it parses, and which of the two
/// relevant tables it carries.
pub fn scan_pyproject(content: &str) -> (r: PyprojectScan)
    ensures
        r.parsed == toml_parses(content@),
        r.parsed ==> r.has_mypy_table == toml_has_tool_mypy(content@),
        r.parsed ==> r.has_zuban_table == toml_has_tool_zuban(content@),
        !r.parsed ==> !r.has_mypy_table && !r.has_zuban_table,
{
    let (parsed, has_mypy_table, has_zuban_table) = scan_pyproject_raw(content);
    PyprojectScan { parsed, has_mypy_table, has_zuban_table }
}

/// The scan outcome for the pyproject candidate, as the chooser consumes it:
/// a file that does not parse aborts discovery, one that parses wins when it
/// carries a `tool.mypy` table.
pub fn pyproject_candidate_scan(content: &str) -> (r: ConfigScan)
    ensures
        toml_parses(content@) ==> r == (ConfigScan::Found {
            has_options: toml_has_tool_mypy(content@),
        }),
        !toml_parses(content@) ==> r == ConfigScan::Unreadable,
{
    let scan = scan_pyproject(content);
    if scan.parsed {
        ConfigScan::Found { has_options: scan.has_mypy_table }
    } else {
        ConfigScan::Unreadable
    }
}

} // verus!
