//! Reading the package manager's main configuration file.
//!
//! The file is INI-like. The `[options]` section may set `DBPath` and
//! `CacheDir`; every other section header names a repository.
use vstd::prelude::*;
use vstd::string::*;
use crate::text::{chars_of, range_is, trim, trim_end, trim_range, trim_start};

verus! {

/// Where the package manager's configuration file lives.
pub const PACMAN_CONF: &'static str = "/etc/pacman.conf";

/// The database directory where the configuration sets none.
pub const DEFAULT_DBPATH: &'static str = "/var/lib/pacman";

/// The cache directory where the configuration sets none.
pub const DEFAULT_CACHEDIR: &'static str = "/var/cache/pacman/pkg";

/// What the configuration file says.
pub struct PacmanConf {
    pub dbpath: Option<String>,
    pub cachedir: Option<String>,
    pub repos: Vec<String>,
}

/// The abstract value of a [`PacmanConf`].
pub struct ConfView {
    pub dbpath: Option<Seq<char>>,
    pub cachedir: Option<Seq<char>>,
    pub repos: Seq<Seq<char>>,
}

impl View for PacmanConf {
    type V = ConfView;

    open spec fn view(&self) -> ConfView {
        ConfView {
            dbpath: self.dbpath.deep_view(),
            cachedir: self.cachedir.deep_view(),
            repos: self.repos.deep_view(),
        }
    }
}

/// The reader's state between two lines: whether it is inside `[options]`,
/// and what it has gathered so far.
pub struct ReadState {
    pub in_options: bool,
    pub conf: ConfView,
}

/// Nothing read yet: outside any section, both paths unset, no repository.
pub open spec fn start_state() -> ReadState {
    ReadState {
        in_options: false,
        conf: ConfView { dbpath: None, cachedir: None, repos: Seq::empty() },
    }
}

/// A line that is empty or starts with `#` (no whitespace is trimmed first).
pub open spec fn is_skipped(line: Seq<char>) -> bool {
    line.len() == 0 || line[0] == '#'
}

/// The name of the section that `line` opens, if it is a section header:
/// once trimmed it starts with `[` and ends with `]`.
pub open spec fn section_of(line: Seq<char>) -> Option<Seq<char>> {
    let t = trim(line);
    if t.len() >= 2 && t[0] == '[' && t.last() == ']' {
        Some(t.subrange(1, t.len() - 1))
    } else {
        None
    }
}

/// `s` cut at its first `=`: the text before it and the text after it.
pub open spec fn split_at_eq(s: Seq<char>) -> Option<(Seq<char>, Seq<char>)>
    decreases s.len(),
{
    if s.len() == 0 {
        None
    } else if s[0] == '=' {
        Some((Seq::empty(), s.drop_first()))
    } else {
        match split_at_eq(s.drop_first()) {
            Some(p) => Some((seq![s[0]] + p.0, p.1)),
            None => None,
        }
    }
}

/// `line` read as `key = value`, both sides trimmed.
pub open spec fn option_of(line: Seq<char>) -> Option<(Seq<char>, Seq<char>)> {
    match split_at_eq(line) {
        Some(p) => Some((trim(p.0), trim(p.1))),
        None => None,
    }
}

/// The effect of one line on the reader's state.
pub open spec fn apply_line(st: ReadState, line: Seq<char>) -> ReadState {
    if is_skipped(line) {
        st
    } else if section_of(line) is Some {
        let name = section_of(line)->0;
        if name == "options"@ {
            ReadState { in_options: true, ..st }
        } else {
            ReadState { in_options: false, conf: ConfView { repos: st.conf.repos.push(name), ..st.conf } }
        }
    } else if !st.in_options || option_of(line) is None {
        st
    } else {
        let (key, value) = option_of(line)->0;
        if key == "DBPath"@ {
            if st.conf.dbpath is None {
                ReadState { conf: ConfView { dbpath: Some(value), ..st.conf }, ..st }
            } else {
                st
            }
        } else if key == "CacheDir"@ && st.conf.cachedir is None {
            ReadState { conf: ConfView { cachedir: Some(value), ..st.conf }, ..st }
        } else {
            st
        }
    }
}

/// Reads `rest` on top of `st`, where `line` holds the characters of the
/// current line seen so far. A line ends at each `\n` and at the end of the
/// text.
pub open spec fn read_text(st: ReadState, line: Seq<char>, rest: Seq<char>) -> ReadState
    decreases rest.len(),
{
    if rest.len() == 0 {
        apply_line(st, line)
    } else if rest[0] == '\n' {
        read_text(apply_line(st, line), Seq::empty(), rest.drop_first())
    } else {
        read_text(st, line.push(rest[0]), rest.drop_first())
    }
}

/// The configuration that the text `s` describes.
pub open spec fn config_of(s: Seq<char>) -> ConfView {
    read_text(start_state(), Seq::empty(), s).conf
}

proof fn lemma_split_at_eq(s: Seq<char>, k: int)
    requires
        0 <= k <= s.len(),
        forall|j: int| 0 <= j < k ==> s[j] != '=',
        k < s.len() ==> s[k] == '=',
    ensures
        split_at_eq(s) == if k < s.len() {
            Some((s.subrange(0, k), s.subrange(k + 1, s.len() as int)))
        } else {
            None::<(Seq<char>, Seq<char>)>
        },
    decreases k,
{
    if k > 0 {
        let t = s.drop_first();
        lemma_split_at_eq(t, k - 1);
        if k < s.len() {
            assert(seq![s[0]] + t.subrange(0, k - 1) =~= s.subrange(0, k));
            assert(t.subrange(k, t.len() as int) =~= s.subrange(k + 1, s.len() as int));
        }
    } else if s.len() > 0 {
        assert(s.subrange(0, 0) =~= Seq::<char>::empty());
        assert(s.drop_first() =~= s.subrange(1, s.len() as int));
    }
}

/// The reader's state as held in its variables.
spec fn state_of(
    in_options: bool,
    dbpath: Option<String>,
    cachedir: Option<String>,
    repos: Vec<String>,
) -> ReadState {
    ReadState {
        in_options,
        conf: ConfView {
            dbpath: dbpath.deep_view(),
            cachedir: cachedir.deep_view(),
            repos: repos.deep_view(),
        },
    }
}

fn skip_line(cs: &Vec<char>, start: usize, end: usize) -> (r: bool)
    requires
        start <= end <= cs@.len(),
    ensures
        r == is_skipped(cs@.subrange(start as int, end as int)),
{
    start == end || cs[start] == '#'
}

/// The bounds of the section name, where `cs[start..end]` is a section header.
fn parse_section(cs: &Vec<char>, start: usize, end: usize) -> (r: Option<(usize, usize)>)
    requires
        start <= end <= cs@.len(),
    ensures
        match r {
            Some((a, b)) => a <= b <= cs@.len() && section_of(cs@.subrange(start as int, end as int))
                == Some(cs@.subrange(a as int, b as int)),
            None => section_of(cs@.subrange(start as int, end as int)) is None,
        },
{
    let (a, b) = trim_range(cs, start, end);
    if b - a >= 2 && cs[a] == '[' && cs[b - 1] == ']' {
        let ghost t = cs@.subrange(a as int, b as int);
        assert(t.subrange(1, t.len() - 1) =~= cs@.subrange(a + 1, b - 1));
        Some((a + 1, b - 1))
    } else {
        None
    }
}

/// The bounds of the trimmed key and value, where `cs[start..end]` holds `=`.
fn parse_option(cs: &Vec<char>, start: usize, end: usize) -> (r: Option<((usize, usize), (usize, usize))>)
    requires
        start <= end <= cs@.len(),
    ensures
        match r {
            Some((k, v)) => k.0 <= k.1 <= cs@.len() && v.0 <= v.1 <= cs@.len() && option_of(
                cs@.subrange(start as int, end as int),
            ) == Some((cs@.subrange(k.0 as int, k.1 as int), cs@.subrange(v.0 as int, v.1 as int))),
            None => option_of(cs@.subrange(start as int, end as int)) is None,
        },
{
    let ghost s = cs@.subrange(start as int, end as int);
    let mut i = start;
    while i < end && cs[i] != '='
        invariant
            start <= i <= end <= cs@.len(),
            forall|j: int| start <= j < i ==> cs@[j] != '=',
        decreases end - i,
    {
        i = i + 1;
    }
    proof {
        lemma_split_at_eq(s, i - start);
    }
    if i == end {
        None
    } else {
        assert(s.subrange(0, i - start) =~= cs@.subrange(start as int, i as int));
        assert(s.subrange(i - start + 1, s.len() as int) =~= cs@.subrange(i + 1, end as int));
        let key = trim_range(cs, start, i);
        let value = trim_range(cs, i + 1, end);
        Some((key, value))
    }
}

/// Reads a configuration from its text.
///
/// Lines that are empty or start with `#` are skipped. `[options]` enters
/// the options section; any other `[name]` appends `name` to the repositories
/// (once per occurrence) and leaves it. Inside the options section,
/// `DBPath = value` and `CacheDir = value` set the paths; the first setting
/// of each is kept. Everything else is ignored.
pub fn read_config(text: &str) -> (r: PacmanConf)
    ensures
        r@ == config_of(text@),
{
    let cs = chars_of(text);
    let options = chars_of("options");
    let dbpath_key = chars_of("DBPath");
    let cachedir_key = chars_of("CacheDir");
    let mut in_options = false;
    let mut dbpath: Option<String> = None;
    let mut cachedir: Option<String> = None;
    let mut repos: Vec<String> = Vec::new();
    let mut start: usize = 0;
    let mut i: usize = 0;
    assert(cs@.subrange(0, 0) =~= Seq::<char>::empty());
    assert(cs@.subrange(0, cs@.len() as int) =~= cs@);
    assert(repos.deep_view() =~= Seq::<Seq<char>>::empty());
    loop
        invariant_except_break
            read_text(
                state_of(in_options, dbpath, cachedir, repos),
                cs@.subrange(start as int, i as int),
                cs@.subrange(i as int, cs@.len() as int),
            ) == read_text(start_state(), Seq::empty(), text@),
        invariant
            cs@ == text@,
            options@ == "options"@,
            dbpath_key@ == "DBPath"@,
            cachedir_key@ == "CacheDir"@,
            start <= i <= cs@.len(),
        ensures
            state_of(in_options, dbpath, cachedir, repos) == read_text(start_state(), Seq::empty(), text@),
        decreases cs@.len() - i,
    {
        let ghost st = state_of(in_options, dbpath, cachedir, repos);
        let ghost line = cs@.subrange(start as int, i as int);
        let ghost rest = cs@.subrange(i as int, cs@.len() as int);
        if i < cs.len() && cs[i] != '\n' {
            assert(line.push(rest[0]) =~= cs@.subrange(start as int, i + 1));
            assert(rest.drop_first() =~= cs@.subrange(i + 1, cs@.len() as int));
            i = i + 1;
            continue;
        }
        // cs[start..i] is a whole line: apply it.

        if skip_line(&cs, start, i) {
        } else if let Some((a, b)) = parse_section(&cs, start, i) {
            if range_is(&cs, a, b, &options) {
                in_options = true;
            } else {
                in_options = false;
                let name = text.substring_char(a, b).to_owned();
                repos.push(name);
                assert(repos.deep_view() =~= st.conf.repos.push(cs@.subrange(a as int, b as int)));
            }
        } else if in_options {
            if let Some(((ka, kb), (va, vb))) = parse_option(&cs, start, i) {
                if range_is(&cs, ka, kb, &dbpath_key) {
                    if dbpath.is_none() {
                        dbpath = Some(text.substring_char(va, vb).to_owned());
                    }
                } else if range_is(&cs, ka, kb, &cachedir_key) {
                    if cachedir.is_none() {
                        cachedir = Some(text.substring_char(va, vb).to_owned());
                    }
                }
            }
        }
        assert(state_of(in_options, dbpath, cachedir, repos) == apply_line(st, line));
        if i == cs.len() {
            break;
        }
        assert(rest.drop_first() =~= cs@.subrange(i + 1, cs@.len() as int));
        assert(cs@.subrange(i + 1, i + 1) =~= Seq::<char>::empty());
        i = i + 1;
        start = i;
    }
    PacmanConf { dbpath, cachedir, repos }
}

/// Reading is deterministic: the same text always gives the same
/// configuration.
pub proof fn lemma_read_deterministic(s: Seq<char>, t: Seq<char>)
    requires
        s == t,
    ensures
        config_of(s) == config_of(t),
{
}

/// An empty text gives both paths unset and no repository.
pub proof fn lemma_empty_text()
    ensures
        config_of(Seq::empty()) == start_state().conf,
{
    assert(apply_line(start_state(), Seq::empty()) == start_state());
}

/// Whatever came before (a `[core]` section with any content), an
/// `[options]` header puts the reader in the options section, so a
/// `DBPath` line after it sets the database path, if none is set yet,
/// and adds nothing to the repositories.
pub proof fn lemma_options_after_section(st: ReadState, line: Seq<char>, value: Seq<char>)
    requires
        !is_skipped(line),
        section_of(line) is None,
        option_of(line) == Some(("DBPath"@, value)),
    ensures
        apply_line(st, "[options]"@).in_options,
        apply_line(st, "[options]"@).conf == st.conf,
        apply_line(apply_line(st, "[options]"@), line).conf.repos == st.conf.repos,
        apply_line(apply_line(st, "[options]"@), line).conf.dbpath == if st.conf.dbpath is None {
            Some(value)
        } else {
            st.conf.dbpath
        },
{
    reveal_strlit("[options]");
    reveal_strlit("options");
    let l = "[options]"@;
    assert(trim_start(l) == l);
    assert(trim_end(l) == l);
    assert(l.subrange(1, l.len() - 1) =~= "options"@);
}

/// Of two `DBPath` lines in the options section, the first one's value is
/// kept.
pub proof fn lemma_first_dbpath_wins(
    st: ReadState,
    first: Seq<char>,
    second: Seq<char>,
    v1: Seq<char>,
    v2: Seq<char>,
)
    requires
        st.in_options,
        st.conf.dbpath is None,
        !is_skipped(first),
        section_of(first) is None,
        option_of(first) == Some(("DBPath"@, v1)),
        !is_skipped(second),
        section_of(second) is None,
        option_of(second) == Some(("DBPath"@, v2)),
    ensures
        apply_line(apply_line(st, first), second).conf.dbpath == Some(v1),
{
}

/// Once the database path is set, nothing in the rest of the text changes
/// it.
pub proof fn lemma_dbpath_kept(st: ReadState, line: Seq<char>, rest: Seq<char>)
    requires
        st.conf.dbpath is Some,
    ensures
        read_text(st, line, rest).conf.dbpath == st.conf.dbpath,
    decreases rest.len(),
{
    if rest.len() > 0 {
        if rest[0] == '\n' {
            lemma_dbpath_kept(apply_line(st, line), Seq::empty(), rest.drop_first());
        } else {
            lemma_dbpath_kept(st, line.push(rest[0]), rest.drop_first());
        }
    }
}

/// Once the cache directory is set, nothing in the rest of the text
/// changes it.
pub proof fn lemma_cachedir_kept(st: ReadState, line: Seq<char>, rest: Seq<char>)
    requires
        st.conf.cachedir is Some,
    ensures
        read_text(st, line, rest).conf.cachedir == st.conf.cachedir,
    decreases rest.len(),
{
    if rest.len() > 0 {
        if rest[0] == '\n' {
            lemma_cachedir_kept(apply_line(st, line), Seq::empty(), rest.drop_first());
        } else {
            lemma_cachedir_kept(st, line.push(rest[0]), rest.drop_first());
        }
    }
}

/// What reading `rest` on top of `st` leaves, where `line` holds the
/// characters of the current line seen so far: the state, and the current
/// line, not yet applied.
pub open spec fn scan_text(st: ReadState, line: Seq<char>, rest: Seq<char>) -> (ReadState, Seq<char>)
    decreases rest.len(),
{
    if rest.len() == 0 {
        (st, line)
    } else if rest[0] == '\n' {
        scan_text(apply_line(st, line), Seq::empty(), rest.drop_first())
    } else {
        scan_text(st, line.push(rest[0]), rest.drop_first())
    }
}

proof fn lemma_read_is_scan(st: ReadState, line: Seq<char>, rest: Seq<char>)
    ensures
        read_text(st, line, rest) == apply_line(
            scan_text(st, line, rest).0,
            scan_text(st, line, rest).1,
        ),
    decreases rest.len(),
{
    if rest.len() > 0 {
        if rest[0] == '\n' {
            lemma_read_is_scan(apply_line(st, line), Seq::empty(), rest.drop_first());
        } else {
            lemma_read_is_scan(st, line.push(rest[0]), rest.drop_first());
        }
    }
}

proof fn lemma_scan_concat(st: ReadState, line: Seq<char>, a: Seq<char>, b: Seq<char>)
    ensures
        scan_text(st, line, a + b) == scan_text(
            scan_text(st, line, a).0,
            scan_text(st, line, a).1,
            b,
        ),
    decreases a.len(),
{
    if a.len() == 0 {
        assert(a + b =~= b);
    } else {
        assert((a + b)[0] == a[0]);
        assert((a + b).drop_first() =~= a.drop_first() + b);
        if a[0] == '\n' {
            lemma_scan_concat(apply_line(st, line), Seq::empty(), a.drop_first(), b);
        } else {
            lemma_scan_concat(st, line.push(a[0]), a.drop_first(), b);
        }
    }
}

proof fn lemma_scan_within_line(st: ReadState, line: Seq<char>, t: Seq<char>)
    requires
        !t.contains('\n'),
    ensures
        scan_text(st, line, t) == (st, line + t),
    decreases t.len(),
{
    if t.len() == 0 {
        assert(line + t =~= line);
    } else {
        assert(t.drop_first().len() < t.len());
        assert forall|i: int| 0 <= i < t.drop_first().len() implies t.drop_first()[i] != '\n' by {
            assert(t.drop_first()[i] == t[i + 1]);
        }
        assert(t[0] != '\n') by {
            if t[0] == '\n' {
                assert(t.contains('\n'));
            }
        }
        lemma_scan_within_line(st, line.push(t[0]), t.drop_first());
        assert(line.push(t[0]) + t.drop_first() =~= line + t);
    }
}

proof fn lemma_scan_newline(st: ReadState, line: Seq<char>)
    ensures
        scan_text(st, line, seq!['\n']) == (apply_line(st, line), Seq::<char>::empty()),
{
    let nl = seq!['\n'];
    assert(nl.drop_first() =~= Seq::<char>::empty());
    assert(scan_text(apply_line(st, line), Seq::empty(), Seq::<char>::empty()) == (
        apply_line(st, line),
        Seq::<char>::empty(),
    ));
}

/// Whatever text comes first, provided it ends with a line break and sets
/// no database path (a `[core]` section with any content, say), an
/// `[options]` line and then a `DBPath` line give the database path that
/// line sets, whatever text follows.
pub proof fn lemma_options_after_any_text(
    pre: Seq<char>,
    line: Seq<char>,
    value: Seq<char>,
    post: Seq<char>,
)
    requires
        pre.len() == 0 || pre.last() == '\n',
        config_of(pre).dbpath is None,
        !line.contains('\n'),
        !is_skipped(line),
        section_of(line) is None,
        option_of(line) == Some(("DBPath"@, value)),
    ensures
        config_of(pre + "[options]"@ + seq!['\n'] + line + seq!['\n'] + post).dbpath == Some(value),
{
    reveal_strlit("[options]");
    let header = "[options]"@;
    let nl = seq!['\n'];
    let empty = Seq::<char>::empty();
    let start = start_state();
    // After `pre` no line is pending.
    let m0 = scan_text(start, empty, pre);
    if pre.len() > 0 {
        assert(pre =~= pre.drop_last() + nl);
        lemma_scan_concat(start, empty, pre.drop_last(), nl);
        let m = scan_text(start, empty, pre.drop_last());
        lemma_scan_newline(m.0, m.1);
    }
    assert(m0.1 == empty);
    lemma_read_is_scan(start, empty, pre);
    assert(apply_line(m0.0, empty) == m0.0);
    let st0 = m0.0;
    assert(st0.conf.dbpath is None);
    // The header line, then the `DBPath` line.
    lemma_scan_concat(start, empty, pre, header);
    assert(!header.contains('\n')) by {
        if header.contains('\n') {
            let i = choose|i: int| 0 <= i < header.len() && header[i] == '\n';
        }
    }
    lemma_scan_within_line(st0, empty, header);
    assert(empty + header =~= header);
    lemma_scan_concat(start, empty, pre + header, nl);
    lemma_scan_newline(st0, header);
    let st1 = apply_line(st0, header);
    lemma_options_after_section(st0, line, value);
    lemma_scan_concat(start, empty, pre + header + nl, line);
    lemma_scan_within_line(st1, empty, line);
    assert(empty + line =~= line);
    lemma_scan_concat(start, empty, pre + header + nl + line, nl);
    lemma_scan_newline(st1, line);
    let st2 = apply_line(st1, line);
    assert(st2.conf.dbpath == Some(value));
    // What follows keeps it.
    lemma_scan_concat(start, empty, pre + header + nl + line + nl, post);
    lemma_read_is_scan(start, empty, pre + header + nl + line + nl + post);
    lemma_read_is_scan(st2, empty, post);
    lemma_dbpath_kept(st2, empty, post);
}

} // verus!
