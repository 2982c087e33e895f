use vstd::prelude::*;
use crate::text::{trim, find, split, starts_with, ends_with, parse_bounded, parse_uint, lemma_find_from_skip, str_chars, trim_chars, chars_are, chars_start_with, chars_end_with, chars_to_string, find_char, sub_chars, split_chars, parse_usize, char_vec_views};

verus! {

pub const DBG_STR: &'static str = "";
pub const OK: i32 = 0;
pub const ERR: i32 = -1;
pub const N_VNODES: usize = 4;
pub const PORT: usize = 8080;
/// The default lower bound of salt lengths for virtual node hashes.
pub const LOW: usize = 10;
/// The default upper bound of salt lengths for virtual node hashes.
pub const HIGH: usize = 200;

/// The role of a process.
#[derive(Clone, Copy, Debug, PartialEq, Eq, Structural)]
pub enum Role {
    /// A cache node, commanded by the orchestrator.
    Slaves,
    /// The orchestrator, which routes requests to cache nodes.
    Master,
}

/// The lower-case form of `s`, as `str::to_lowercase` gives it.
pub uninterp spec fn lowercase_of(s: Seq<char>) -> Seq<char>;

/// Lower-cases `s`.
///
/// Trusted: calls `str::to_lowercase`; the contract names its result `lowercase_of(s@)`.
#[verifier::external_body]
fn to_lowercase(s: &str) -> (r: String)
    ensures
        r@ == lowercase_of(s@),
{
    s.to_lowercase()
}

/// The role that an already lower-cased name selects.
pub open spec fn role_of_lowered(s: Seq<char>) -> Role {
    let t = trim(s);
    if t == "master"@ || t == "main"@ || t == "orchestrator"@ {
        Role::Master
    } else {
        Role::Slaves
    }
}

impl Role {
    /// The role that the lower-cased name `lowered` selects: `Master` for `master`, `main` or
    /// `orchestrator` (around white space), `Slaves` otherwise.
    pub fn from_lowercase(lowered: &str) -> (r: Role)
        ensures
            r == role_of_lowered(lowered@),
    {
        let cs = str_chars(lowered);
        let t = trim_chars(cs.as_slice());
        if chars_are(t.as_slice(), "master") || chars_are(t.as_slice(), "main") || chars_are(
            t.as_slice(),
            "orchestrator",
        ) {
            Role::Master
        } else {
            Role::Slaves
        }
    }
}

impl From<String> for Role {
    fn from(value: String) -> (r: Role) {
        let lowered = to_lowercase(value.as_str());
        Role::from_lowercase(lowered.as_str())
    }
}

impl vstd::std_specs::convert::FromSpecImpl<String> for Role {
    open spec fn obeys_from_spec() -> bool {
        true
    }

    open spec fn from_spec(v: String) -> Role {
        role_of_lowered(lowercase_of(v@))
    }
}

/// Why the command line was not taken.
#[derive(Clone, Copy, Debug, PartialEq, Eq, Structural)]
pub enum ArgError {
    /// Help was asked for, or an argument is not known: the help text is due.
    Help,
    /// The number of virtual nodes is not an unsigned number.
    BadVnodes,
    /// The port is not a 16-bit unsigned number.
    BadPort,
    /// The upper salt bound is not an unsigned number.
    BadMax,
    /// The lower salt bound is not an unsigned number.
    BadMin,
    /// The cache capacity is not an unsigned number.
    BadCap,
    /// The lower salt bound is not below the upper one.
    BoundsInverted,
}

/// The command-line settings of a process.
#[derive(Debug)]
pub struct CLI {
    pub dbg: bool,
    pub role: Role,
    pub n_vnode: usize,
    pub replica: Vec<String>,
    pub nodes: Vec<String>,
    pub port: u16,
    pub cache_cap: Option<usize>,
    pub evic_policy: Option<String>,
    pub low: usize,
    pub high: usize,
}

/// The settings of a `CLI` as plain values.
pub struct CliView {
    pub dbg: bool,
    pub role: Role,
    pub n_vnode: usize,
    pub replica: Seq<Seq<char>>,
    pub nodes: Seq<Seq<char>>,
    pub port: u16,
    pub cache_cap: Option<usize>,
    pub evic_policy: Option<Seq<char>>,
    pub low: usize,
    pub high: usize,
}

/// The views of a sequence of strings.
pub open spec fn views_of(s: Seq<String>) -> Seq<Seq<char>> {
    s.map_values(|x: String| x@)
}

impl CLI {
    pub open spec fn view(&self) -> CliView {
        CliView {
            dbg: self.dbg,
            role: self.role,
            n_vnode: self.n_vnode,
            replica: views_of(self.replica@),
            nodes: views_of(self.nodes@),
            port: self.port,
            cache_cap: self.cache_cap,
            evic_policy: match self.evic_policy {
                Some(p) => Some(p@),
                None => None,
            },
            low: self.low,
            high: self.high,
        }
    }
}

/// What follows the first `=` of an argument.
pub open spec fn after_eq(a: Seq<char>) -> Seq<char> {
    match find(a, '=') {
        Some(i) => a.subrange(i + 1, a.len() as int),
        None => a,
    }
}

/// The comma-separated names between the first `[` and the first `]` of an argument.
pub open spec fn bracket_list(a: Seq<char>) -> Seq<Seq<char>> {
    match (find(a, '['), find(a, ']')) {
        (Some(i), Some(j)) => if i + 1 <= j { split(a.subrange(i + 1, j), ',') } else { Seq::empty() },
        _ => Seq::empty(),
    }
}

/// The settings after one argument, or why the command line is not taken.
pub open spec fn apply_arg(c: CliView, a: Seq<char>) -> Result<CliView, ArgError> {
    if a == "-d"@ || a == "--debug"@ || a == " --DEBUG"@ || a == "-D"@ {
        Ok(CliView { dbg: true, ..c })
    } else if a == "-h"@ || a == "--help"@ || a == " --HELP"@ || a == "-H"@ {
        Err(ArgError::Help)
    } else if starts_with(a, "--role="@) || starts_with(a, "-r="@) {
        Ok(CliView { role: role_of_lowered(lowercase_of(after_eq(a))), ..c })
    } else if starts_with(a, "--n_vnodes="@) || starts_with(a, "-n="@) {
        match parse_bounded(after_eq(a), usize::MAX as nat) {
            Some(v) => Ok(CliView { n_vnode: v as usize, ..c }),
            None => Err(ArgError::BadVnodes),
        }
    } else if starts_with(a, "--port="@) || starts_with(a, "-p="@) {
        match parse_bounded(after_eq(a), u16::MAX as nat) {
            Some(v) => Ok(CliView { port: v as u16, ..c }),
            None => Err(ArgError::BadPort),
        }
    } else if starts_with(a, "--max="@) || starts_with(a, "-mx="@) {
        match parse_bounded(after_eq(a), usize::MAX as nat) {
            Some(v) => Ok(CliView { high: v as usize, ..c }),
            None => Err(ArgError::BadMax),
        }
    } else if starts_with(a, "--min="@) || starts_with(a, "-mn="@) {
        match parse_bounded(after_eq(a), usize::MAX as nat) {
            Some(v) => Ok(CliView { low: v as usize, ..c }),
            None => Err(ArgError::BadMin),
        }
    } else if starts_with(a, "--cap="@) || starts_with(a, "-c="@) {
        match parse_bounded(after_eq(a), usize::MAX as nat) {
            Some(v) => Ok(CliView { cache_cap: Some(v as usize), ..c }),
            None => Err(ArgError::BadCap),
        }
    } else if starts_with(a, "--evic_policy="@) || starts_with(a, "-ep="@) {
        Ok(CliView { evic_policy: Some(after_eq(a)), ..c })
    } else if (starts_with(a, "--replica["@) && ends_with(a, "]"@)) || (starts_with(a, "--replicas["@)
        && ends_with(a, "]"@)) || (starts_with(a, "-rep["@) && ends_with(a, "]"@)) {
        Ok(CliView { replica: c.replica + bracket_list(a), ..c })
    } else if (starts_with(a, "--node["@) && ends_with(a, "]"@)) || (starts_with(a, "--nodes["@)
        && ends_with(a, "]"@)) {
        Ok(CliView { nodes: c.nodes + bracket_list(a), ..c })
    } else {
        Err(ArgError::Help)
    }
}

/// The settings after all of `args`, taken in order, or the first argument's error.
pub open spec fn apply_args(c: CliView, args: Seq<Seq<char>>) -> Result<CliView, ArgError>
    decreases args.len(),
{
    if args.len() == 0 {
        Ok(c)
    } else {
        match apply_arg(c, args[0]) {
            Ok(c2) => apply_args(c2, args.drop_first()),
            Err(e) => Err(e),
        }
    }
}

/// The settings after all of `args`, or why the command line is not taken; the lower salt
/// bound must end below the upper one.
pub open spec fn parse_args_spec(c: CliView, args: Seq<Seq<char>>) -> Result<CliView, ArgError> {
    match apply_args(c, args) {
        Ok(c2) => if c2.low >= c2.high {
            Err(ArgError::BoundsInverted)
        } else {
            Ok(c2)
        },
        Err(e) => Err(e),
    }
}

/// The settings before any argument.
pub open spec fn default_cli() -> CliView {
    CliView {
        dbg: false,
        role: Role::Slaves,
        n_vnode: N_VNODES,
        replica: Seq::empty(),
        nodes: Seq::empty(),
        port: 8080,
        cache_cap: None,
        evic_policy: None,
        low: LOW,
        high: HIGH,
    }
}

/// What follows the first `=` of `a`.
fn after_eq_chars(a: &[char]) -> (r: Vec<char>)
    ensures
        r@ == after_eq(a@),
{
    let n = a.len();
    match find_char(a, '=') {
        Some(i) => sub_chars(a, i + 1, n),
        None => sub_chars(a, 0, n),
    }
}

/// The names listed between the brackets of `a`, as strings.
fn bracket_names(a: &[char]) -> (r: Vec<String>)
    ensures
        views_of(r@) == bracket_list(a@),
{
    let mut out: Vec<String> = Vec::new();
    let n = a.len();
    match (find_char(a, '['), find_char(a, ']')) {
        (Some(i), Some(j)) => {
            if i + 1 <= j {
                let inner = sub_chars(a, i + 1, j);
                let pieces = split_chars(inner.as_slice(), ',');
                let mut k: usize = 0;
                while k < pieces.len()
                    invariant
                        k <= pieces@.len(),
                        out@.len() == k,
                        forall|m: int| 0 <= m < k ==> #[trigger] out@[m]@ == pieces@[m]@,
                    decreases pieces@.len() - k,
                {
                    out.push(chars_to_string(pieces[k].as_slice()));
                    k = k + 1;
                }
                proof {
                    assert(views_of(out@) =~= char_vec_views(pieces@));
                }
            } else {
                assert(views_of(out@) =~= Seq::<Seq<char>>::empty());
            }
        },
        _ => {
            assert(views_of(out@) =~= Seq::<Seq<char>>::empty());
        },
    }
    out
}

/// Appends `more` to `v`.
fn append_strings(v: &mut Vec<String>, more: Vec<String>)
    ensures
        views_of(final(v)@) == views_of(old(v)@) + views_of(more@),
{
    let ghost m = more@;
    let mut more = more;
    v.append(&mut more);
    assert(views_of(v@) =~= views_of(old(v)@) + views_of(m));
}

impl CLI {
    /// The settings before any argument: a cache node on port 8080 with the default number of
    /// virtual nodes and salt bounds.
    pub fn new() -> (c: Self)
        ensures
            c.view() == default_cli(),
    {
        let c = CLI {
            dbg: false,
            role: Role::Slaves,
            n_vnode: N_VNODES,
            replica: Vec::new(),
            nodes: Vec::new(),
            port: 8080,
            cache_cap: None,
            evic_policy: None,
            low: LOW,
            high: HIGH,
        };
        assert(c.view().replica =~= Seq::<Seq<char>>::empty());
        assert(c.view().nodes =~= Seq::<Seq<char>>::empty());
        c
    }

    /// Takes one argument.
    fn apply(&mut self, a: &[char]) -> (r: Result<(), ArgError>)
        ensures
            match apply_arg(old(self).view(), a@) {
                Ok(c) => r is Ok && final(self).view() == c,
                Err(e) => r == Err::<(), ArgError>(e),
            },
    {
        if chars_are(a, "-d") || chars_are(a, "--debug") || chars_are(a, " --DEBUG") || chars_are(a, "-D") {
            self.dbg = true;
            Ok(())
        } else if chars_are(a, "-h") || chars_are(a, "--help") || chars_are(a, " --HELP") || chars_are(a, "-H") {
            Err(ArgError::Help)
        } else if chars_start_with(a, "--role=") || chars_start_with(a, "-r=") {
            let rest = chars_to_string(after_eq_chars(a).as_slice());
            let lowered = to_lowercase(rest.as_str());
            self.role = Role::from_lowercase(lowered.as_str());
            Ok(())
        } else if chars_start_with(a, "--n_vnodes=") || chars_start_with(a, "-n=") {
            match parse_usize(after_eq_chars(a).as_slice()) {
                Some(v) => {
                    self.n_vnode = v;
                    Ok(())
                },
                None => Err(ArgError::BadVnodes),
            }
        } else if chars_start_with(a, "--port=") || chars_start_with(a, "-p=") {
            match parse_usize(after_eq_chars(a).as_slice()) {
                Some(v) => {
                    if v <= 65535 {
                        self.port = v as u16;
                        Ok(())
                    } else {
                        Err(ArgError::BadPort)
                    }
                },
                None => Err(ArgError::BadPort),
            }
        } else if chars_start_with(a, "--max=") || chars_start_with(a, "-mx=") {
            match parse_usize(after_eq_chars(a).as_slice()) {
                Some(v) => {
                    self.high = v;
                    Ok(())
                },
                None => Err(ArgError::BadMax),
            }
        } else if chars_start_with(a, "--min=") || chars_start_with(a, "-mn=") {
            match parse_usize(after_eq_chars(a).as_slice()) {
                Some(v) => {
                    self.low = v;
                    Ok(())
                },
                None => Err(ArgError::BadMin),
            }
        } else if chars_start_with(a, "--cap=") || chars_start_with(a, "-c=") {
            match parse_usize(after_eq_chars(a).as_slice()) {
                Some(v) => {
                    self.cache_cap = Some(v);
                    Ok(())
                },
                None => Err(ArgError::BadCap),
            }
        } else if chars_start_with(a, "--evic_policy=") || chars_start_with(a, "-ep=") {
            self.evic_policy = Some(chars_to_string(after_eq_chars(a).as_slice()));
            Ok(())
        } else if (chars_start_with(a, "--replica[") && chars_end_with(a, "]")) || (chars_start_with(
            a,
            "--replicas[",
        ) && chars_end_with(a, "]")) || (chars_start_with(a, "-rep[") && chars_end_with(a, "]")) {
            let names = bracket_names(a);
            append_strings(&mut self.replica, names);
            Ok(())
        } else if (chars_start_with(a, "--node[") && chars_end_with(a, "]")) || (chars_start_with(
            a,
            "--nodes[",
        ) && chars_end_with(a, "]")) {
            let names = bracket_names(a);
            append_strings(&mut self.nodes, names);
            Ok(())
        } else {
            Err(ArgError::Help)
        }
    }

    /// Takes the arguments `args` in order; fails with the first argument that is not taken,
    /// or, with every argument taken, when the lower salt bound does not end below the upper
    /// one.
    #[allow(non_snake_case)]
    pub fn Parse_Args(&mut self, args: &Vec<String>) -> (r: Result<(), ArgError>)
        ensures
            match parse_args_spec(old(self).view(), views_of(args@)) {
                Ok(c) => r is Ok && final(self).view() == c,
                Err(e) => r == Err::<(), ArgError>(e),
            },
            apply_args(old(self).view(), views_of(args@)) matches Ok(c) ==> final(self).view() == c,
    {
        let n = args.len();
        let mut i: usize = 0;
        assert(views_of(args@).skip(0) =~= views_of(args@));
        while i < n
            invariant
                i <= n,
                n == args@.len(),
                apply_args(self.view(), views_of(args@).skip(i as int)) == apply_args(
                    old(self).view(),
                    views_of(args@),
                ),
            decreases n - i,
        {
            let a = str_chars(args[i].as_str());
            proof {
                assert(views_of(args@).skip(i as int).drop_first() =~= views_of(args@).skip(i + 1));
                assert(views_of(args@).skip(i as int)[0] == a@);
            }
            match self.apply(a.as_slice()) {
                Ok(()) => {},
                Err(e) => {
                    return Err(e);
                },
            }
            i = i + 1;
        }
        if self.low >= self.high {
            return Err(ArgError::BoundsInverted);
        }
        Ok(())
    }
}


/// The debug flags `--debug` and `-d` (also `-D` and ` --DEBUG`) turn debugging on and change
/// nothing else.
pub proof fn law_debug_flags(c: CliView)
    ensures
        apply_arg(c, "--debug"@) == Ok::<CliView, ArgError>(CliView { dbg: true, ..c }),
        apply_arg(c, "-d"@) == Ok::<CliView, ArgError>(CliView { dbg: true, ..c }),
        apply_arg(c, "-D"@) == Ok::<CliView, ArgError>(CliView { dbg: true, ..c }),
        apply_arg(c, " --DEBUG"@) == Ok::<CliView, ArgError>(CliView { dbg: true, ..c }),
{
}

/// The help flags `--help` and `-h` (also `-H` and ` --HELP`) ask for the help text.
pub proof fn law_help_flags(c: CliView)
    ensures
        apply_arg(c, "--help"@) == Err::<CliView, ArgError>(ArgError::Help),
        apply_arg(c, "-h"@) == Err::<CliView, ArgError>(ArgError::Help),
        apply_arg(c, "-H"@) == Err::<CliView, ArgError>(ArgError::Help),
        apply_arg(c, " --HELP"@) == Err::<CliView, ArgError>(ArgError::Help),
{
    reveal_strlit("--help");
    reveal_strlit("-h");
    reveal_strlit("-H");
    reveal_strlit(" --HELP");
    reveal_strlit("--debug");
    reveal_strlit("-d");
    reveal_strlit("-D");
    reveal_strlit(" --DEBUG");
    assert("--help"@[2] != "--debug"@[2]);
    assert("-h"@[1] != "-d"@[1] && "-h"@[1] != "-D"@[1]);
    assert("-H"@[1] != "-d"@[1] && "-H"@[1] != "-D"@[1]);
    assert(" --HELP"@[0] != "--debug"@[0]);
}


/// An argument made of a flag `f` and a rest `v` is not the word `q` and does not begin with
/// it, when `f` and `q` differ at a position within both.
proof fn lemma_flag_differs(f: Seq<char>, v: Seq<char>, q: Seq<char>, i: int)
    requires
        0 <= i < f.len(),
        i < q.len(),
        f[i] != q[i],
    ensures
        f + v != q,
        !starts_with(f + v, q),
{
    let a = f + v;
    assert(a[i] == f[i]);
    if starts_with(a, q) {
        assert(a.subrange(0, q.len() as int)[i] == a[i]);
    }
}

/// An argument made of a flag `f` that ends in its only `=`, and a rest `v`, begins with `f`,
/// and what follows its first `=` is `v`.
proof fn lemma_after_flag(f: Seq<char>, v: Seq<char>)
    requires
        f.len() > 0,
        f[f.len() - 1] == '=',
        forall|j: int| 0 <= j < f.len() - 1 ==> f[j] != '=',
    ensures
        starts_with(f + v, f),
        after_eq(f + v) == v,
{
    let a = f + v;
    let k = f.len() - 1;
    assert forall|j: int| 0 <= j < k implies a[j] != '=' by {
        assert(a[j] == f[j]);
    }
    lemma_find_from_skip(a, '=', k);
    assert(a[k] == '=');
    assert(find(a, '=') == Some(k));
    assert(a.subrange(k + 1, a.len() as int) =~= v);
    assert(a.subrange(0, f.len() as int) =~= f);
}

/// `--n_vnodes=` and `-n=` followed by an unsigned number: sets the number of virtual nodes to that number; anything else is refused.
pub proof fn law_n_vnodes_flags(c: CliView, v: Seq<char>)
    ensures
        parse_uint(v) is Some && parse_uint(v)->0 <= usize::MAX ==> apply_arg(c, "--n_vnodes="@ + v) == Ok::<CliView, ArgError>(CliView { n_vnode: parse_uint(v)->0 as usize, ..c }),
        parse_uint(v) is Some && parse_uint(v)->0 <= usize::MAX ==> apply_arg(c, "-n="@ + v) == Ok::<CliView, ArgError>(CliView { n_vnode: parse_uint(v)->0 as usize, ..c }),
        !(parse_uint(v) is Some && parse_uint(v)->0 <= usize::MAX) ==> apply_arg(c, "--n_vnodes="@ + v) == Err::<CliView, ArgError>(ArgError::BadVnodes),
        !(parse_uint(v) is Some && parse_uint(v)->0 <= usize::MAX) ==> apply_arg(c, "-n="@ + v) == Err::<CliView, ArgError>(ArgError::BadVnodes),
{
    assert(apply_arg(c, "--n_vnodes="@ + v) == match parse_bounded(v, usize::MAX as nat) {
        Some(x) => Ok::<CliView, ArgError>(CliView { n_vnode: x as usize, ..c }),
        None => Err::<CliView, ArgError>(ArgError::BadVnodes),
    }) by {
        reveal_strlit(" --DEBUG");
        reveal_strlit(" --HELP");
        reveal_strlit("--debug");
        reveal_strlit("--help");
        reveal_strlit("--n_vnodes=");
        reveal_strlit("--role=");
        reveal_strlit("-D");
        reveal_strlit("-H");
        reveal_strlit("-d");
        reveal_strlit("-h");
        reveal_strlit("-r=");
        lemma_after_flag("--n_vnodes="@, v);
        lemma_flag_differs("--n_vnodes="@, v, "-d"@, 1);
        lemma_flag_differs("--n_vnodes="@, v, "--debug"@, 2);
        lemma_flag_differs("--n_vnodes="@, v, " --DEBUG"@, 0);
        lemma_flag_differs("--n_vnodes="@, v, "-D"@, 1);
        lemma_flag_differs("--n_vnodes="@, v, "-h"@, 1);
        lemma_flag_differs("--n_vnodes="@, v, "--help"@, 2);
        lemma_flag_differs("--n_vnodes="@, v, " --HELP"@, 0);
        lemma_flag_differs("--n_vnodes="@, v, "-H"@, 1);
        lemma_flag_differs("--n_vnodes="@, v, "--role="@, 2);
        lemma_flag_differs("--n_vnodes="@, v, "-r="@, 1);
    }
    assert(apply_arg(c, "-n="@ + v) == match parse_bounded(v, usize::MAX as nat) {
        Some(x) => Ok::<CliView, ArgError>(CliView { n_vnode: x as usize, ..c }),
        None => Err::<CliView, ArgError>(ArgError::BadVnodes),
    }) by {
        reveal_strlit(" --DEBUG");
        reveal_strlit(" --HELP");
        reveal_strlit("--debug");
        reveal_strlit("--help");
        reveal_strlit("--n_vnodes=");
        reveal_strlit("--role=");
        reveal_strlit("-D");
        reveal_strlit("-H");
        reveal_strlit("-d");
        reveal_strlit("-h");
        reveal_strlit("-n=");
        reveal_strlit("-r=");
        lemma_after_flag("-n="@, v);
        lemma_flag_differs("-n="@, v, "-d"@, 1);
        lemma_flag_differs("-n="@, v, "--debug"@, 1);
        lemma_flag_differs("-n="@, v, " --DEBUG"@, 0);
        lemma_flag_differs("-n="@, v, "-D"@, 1);
        lemma_flag_differs("-n="@, v, "-h"@, 1);
        lemma_flag_differs("-n="@, v, "--help"@, 1);
        lemma_flag_differs("-n="@, v, " --HELP"@, 0);
        lemma_flag_differs("-n="@, v, "-H"@, 1);
        lemma_flag_differs("-n="@, v, "--role="@, 1);
        lemma_flag_differs("-n="@, v, "-r="@, 1);
        lemma_flag_differs("-n="@, v, "--n_vnodes="@, 1);
    }
}

/// `--port=` and `-p=` followed by a number of at most 65535: sets the port to that number; anything else is refused.
pub proof fn law_port_flags(c: CliView, v: Seq<char>)
    ensures
        parse_uint(v) is Some && parse_uint(v)->0 <= u16::MAX ==> apply_arg(c, "--port="@ + v) == Ok::<CliView, ArgError>(CliView { port: parse_uint(v)->0 as u16, ..c }),
        parse_uint(v) is Some && parse_uint(v)->0 <= u16::MAX ==> apply_arg(c, "-p="@ + v) == Ok::<CliView, ArgError>(CliView { port: parse_uint(v)->0 as u16, ..c }),
        !(parse_uint(v) is Some && parse_uint(v)->0 <= u16::MAX) ==> apply_arg(c, "--port="@ + v) == Err::<CliView, ArgError>(ArgError::BadPort),
        !(parse_uint(v) is Some && parse_uint(v)->0 <= u16::MAX) ==> apply_arg(c, "-p="@ + v) == Err::<CliView, ArgError>(ArgError::BadPort),
{
    assert(apply_arg(c, "--port="@ + v) == match parse_bounded(v, u16::MAX as nat) {
        Some(x) => Ok::<CliView, ArgError>(CliView { port: x as u16, ..c }),
        None => Err::<CliView, ArgError>(ArgError::BadPort),
    }) by {
        reveal_strlit(" --DEBUG");
        reveal_strlit(" --HELP");
        reveal_strlit("--debug");
        reveal_strlit("--help");
        reveal_strlit("--n_vnodes=");
        reveal_strlit("--port=");
        reveal_strlit("--role=");
        reveal_strlit("-D");
        reveal_strlit("-H");
        reveal_strlit("-d");
        reveal_strlit("-h");
        reveal_strlit("-n=");
        reveal_strlit("-r=");
        lemma_after_flag("--port="@, v);
        lemma_flag_differs("--port="@, v, "-d"@, 1);
        lemma_flag_differs("--port="@, v, "--debug"@, 2);
        lemma_flag_differs("--port="@, v, " --DEBUG"@, 0);
        lemma_flag_differs("--port="@, v, "-D"@, 1);
        lemma_flag_differs("--port="@, v, "-h"@, 1);
        lemma_flag_differs("--port="@, v, "--help"@, 2);
        lemma_flag_differs("--port="@, v, " --HELP"@, 0);
        lemma_flag_differs("--port="@, v, "-H"@, 1);
        lemma_flag_differs("--port="@, v, "--role="@, 2);
        lemma_flag_differs("--port="@, v, "-r="@, 1);
        lemma_flag_differs("--port="@, v, "--n_vnodes="@, 2);
        lemma_flag_differs("--port="@, v, "-n="@, 1);
    }
    assert(apply_arg(c, "-p="@ + v) == match parse_bounded(v, u16::MAX as nat) {
        Some(x) => Ok::<CliView, ArgError>(CliView { port: x as u16, ..c }),
        None => Err::<CliView, ArgError>(ArgError::BadPort),
    }) by {
        reveal_strlit(" --DEBUG");
        reveal_strlit(" --HELP");
        reveal_strlit("--debug");
        reveal_strlit("--help");
        reveal_strlit("--n_vnodes=");
        reveal_strlit("--port=");
        reveal_strlit("--role=");
        reveal_strlit("-D");
        reveal_strlit("-H");
        reveal_strlit("-d");
        reveal_strlit("-h");
        reveal_strlit("-n=");
        reveal_strlit("-p=");
        reveal_strlit("-r=");
        lemma_after_flag("-p="@, v);
        lemma_flag_differs("-p="@, v, "-d"@, 1);
        lemma_flag_differs("-p="@, v, "--debug"@, 1);
        lemma_flag_differs("-p="@, v, " --DEBUG"@, 0);
        lemma_flag_differs("-p="@, v, "-D"@, 1);
        lemma_flag_differs("-p="@, v, "-h"@, 1);
        lemma_flag_differs("-p="@, v, "--help"@, 1);
        lemma_flag_differs("-p="@, v, " --HELP"@, 0);
        lemma_flag_differs("-p="@, v, "-H"@, 1);
        lemma_flag_differs("-p="@, v, "--role="@, 1);
        lemma_flag_differs("-p="@, v, "-r="@, 1);
        lemma_flag_differs("-p="@, v, "--n_vnodes="@, 1);
        lemma_flag_differs("-p="@, v, "-n="@, 1);
        lemma_flag_differs("-p="@, v, "--port="@, 1);
    }
}

/// `--max=` and `-mx=` followed by an unsigned number: sets the upper salt bound to that number; anything else is refused.
pub proof fn law_max_flags(c: CliView, v: Seq<char>)
    ensures
        parse_uint(v) is Some && parse_uint(v)->0 <= usize::MAX ==> apply_arg(c, "--max="@ + v) == Ok::<CliView, ArgError>(CliView { high: parse_uint(v)->0 as usize, ..c }),
        parse_uint(v) is Some && parse_uint(v)->0 <= usize::MAX ==> apply_arg(c, "-mx="@ + v) == Ok::<CliView, ArgError>(CliView { high: parse_uint(v)->0 as usize, ..c }),
        !(parse_uint(v) is Some && parse_uint(v)->0 <= usize::MAX) ==> apply_arg(c, "--max="@ + v) == Err::<CliView, ArgError>(ArgError::BadMax),
        !(parse_uint(v) is Some && parse_uint(v)->0 <= usize::MAX) ==> apply_arg(c, "-mx="@ + v) == Err::<CliView, ArgError>(ArgError::BadMax),
{
    assert(apply_arg(c, "--max="@ + v) == match parse_bounded(v, usize::MAX as nat) {
        Some(x) => Ok::<CliView, ArgError>(CliView { high: x as usize, ..c }),
        None => Err::<CliView, ArgError>(ArgError::BadMax),
    }) by {
        reveal_strlit(" --DEBUG");
        reveal_strlit(" --HELP");
        reveal_strlit("--debug");
        reveal_strlit("--help");
        reveal_strlit("--max=");
        reveal_strlit("--n_vnodes=");
        reveal_strlit("--port=");
        reveal_strlit("--role=");
        reveal_strlit("-D");
        reveal_strlit("-H");
        reveal_strlit("-d");
        reveal_strlit("-h");
        reveal_strlit("-n=");
        reveal_strlit("-p=");
        reveal_strlit("-r=");
        lemma_after_flag("--max="@, v);
        lemma_flag_differs("--max="@, v, "-d"@, 1);
        lemma_flag_differs("--max="@, v, "--debug"@, 2);
        lemma_flag_differs("--max="@, v, " --DEBUG"@, 0);
        lemma_flag_differs("--max="@, v, "-D"@, 1);
        lemma_flag_differs("--max="@, v, "-h"@, 1);
        lemma_flag_differs("--max="@, v, "--help"@, 2);
        lemma_flag_differs("--max="@, v, " --HELP"@, 0);
        lemma_flag_differs("--max="@, v, "-H"@, 1);
        lemma_flag_differs("--max="@, v, "--role="@, 2);
        lemma_flag_differs("--max="@, v, "-r="@, 1);
        lemma_flag_differs("--max="@, v, "--n_vnodes="@, 2);
        lemma_flag_differs("--max="@, v, "-n="@, 1);
        lemma_flag_differs("--max="@, v, "--port="@, 2);
        lemma_flag_differs("--max="@, v, "-p="@, 1);
    }
    assert(apply_arg(c, "-mx="@ + v) == match parse_bounded(v, usize::MAX as nat) {
        Some(x) => Ok::<CliView, ArgError>(CliView { high: x as usize, ..c }),
        None => Err::<CliView, ArgError>(ArgError::BadMax),
    }) by {
        reveal_strlit(" --DEBUG");
        reveal_strlit(" --HELP");
        reveal_strlit("--debug");
        reveal_strlit("--help");
        reveal_strlit("--max=");
        reveal_strlit("--n_vnodes=");
        reveal_strlit("--port=");
        reveal_strlit("--role=");
        reveal_strlit("-D");
        reveal_strlit("-H");
        reveal_strlit("-d");
        reveal_strlit("-h");
        reveal_strlit("-mx=");
        reveal_strlit("-n=");
        reveal_strlit("-p=");
        reveal_strlit("-r=");
        lemma_after_flag("-mx="@, v);
        lemma_flag_differs("-mx="@, v, "-d"@, 1);
        lemma_flag_differs("-mx="@, v, "--debug"@, 1);
        lemma_flag_differs("-mx="@, v, " --DEBUG"@, 0);
        lemma_flag_differs("-mx="@, v, "-D"@, 1);
        lemma_flag_differs("-mx="@, v, "-h"@, 1);
        lemma_flag_differs("-mx="@, v, "--help"@, 1);
        lemma_flag_differs("-mx="@, v, " --HELP"@, 0);
        lemma_flag_differs("-mx="@, v, "-H"@, 1);
        lemma_flag_differs("-mx="@, v, "--role="@, 1);
        lemma_flag_differs("-mx="@, v, "-r="@, 1);
        lemma_flag_differs("-mx="@, v, "--n_vnodes="@, 1);
        lemma_flag_differs("-mx="@, v, "-n="@, 1);
        lemma_flag_differs("-mx="@, v, "--port="@, 1);
        lemma_flag_differs("-mx="@, v, "-p="@, 1);
        lemma_flag_differs("-mx="@, v, "--max="@, 1);
    }
}

/// `--min=` and `-mn=` followed by an unsigned number: sets the lower salt bound to that number; anything else is refused.
pub proof fn law_min_flags(c: CliView, v: Seq<char>)
    ensures
        parse_uint(v) is Some && parse_uint(v)->0 <= usize::MAX ==> apply_arg(c, "--min="@ + v) == Ok::<CliView, ArgError>(CliView { low: parse_uint(v)->0 as usize, ..c }),
        parse_uint(v) is Some && parse_uint(v)->0 <= usize::MAX ==> apply_arg(c, "-mn="@ + v) == Ok::<CliView, ArgError>(CliView { low: parse_uint(v)->0 as usize, ..c }),
        !(parse_uint(v) is Some && parse_uint(v)->0 <= usize::MAX) ==> apply_arg(c, "--min="@ + v) == Err::<CliView, ArgError>(ArgError::BadMin),
        !(parse_uint(v) is Some && parse_uint(v)->0 <= usize::MAX) ==> apply_arg(c, "-mn="@ + v) == Err::<CliView, ArgError>(ArgError::BadMin),
{
    assert(apply_arg(c, "--min="@ + v) == match parse_bounded(v, usize::MAX as nat) {
        Some(x) => Ok::<CliView, ArgError>(CliView { low: x as usize, ..c }),
        None => Err::<CliView, ArgError>(ArgError::BadMin),
    }) by {
        reveal_strlit(" --DEBUG");
        reveal_strlit(" --HELP");
        reveal_strlit("--debug");
        reveal_strlit("--help");
        reveal_strlit("--max=");
        reveal_strlit("--min=");
        reveal_strlit("--n_vnodes=");
        reveal_strlit("--port=");
        reveal_strlit("--role=");
        reveal_strlit("-D");
        reveal_strlit("-H");
        reveal_strlit("-d");
        reveal_strlit("-h");
        reveal_strlit("-mx=");
        reveal_strlit("-n=");
        reveal_strlit("-p=");
        reveal_strlit("-r=");
        lemma_after_flag("--min="@, v);
        lemma_flag_differs("--min="@, v, "-d"@, 1);
        lemma_flag_differs("--min="@, v, "--debug"@, 2);
        lemma_flag_differs("--min="@, v, " --DEBUG"@, 0);
        lemma_flag_differs("--min="@, v, "-D"@, 1);
        lemma_flag_differs("--min="@, v, "-h"@, 1);
        lemma_flag_differs("--min="@, v, "--help"@, 2);
        lemma_flag_differs("--min="@, v, " --HELP"@, 0);
        lemma_flag_differs("--min="@, v, "-H"@, 1);
        lemma_flag_differs("--min="@, v, "--role="@, 2);
        lemma_flag_differs("--min="@, v, "-r="@, 1);
        lemma_flag_differs("--min="@, v, "--n_vnodes="@, 2);
        lemma_flag_differs("--min="@, v, "-n="@, 1);
        lemma_flag_differs("--min="@, v, "--port="@, 2);
        lemma_flag_differs("--min="@, v, "-p="@, 1);
        lemma_flag_differs("--min="@, v, "--max="@, 3);
        lemma_flag_differs("--min="@, v, "-mx="@, 1);
    }
    assert(apply_arg(c, "-mn="@ + v) == match parse_bounded(v, usize::MAX as nat) {
        Some(x) => Ok::<CliView, ArgError>(CliView { low: x as usize, ..c }),
        None => Err::<CliView, ArgError>(ArgError::BadMin),
    }) by {
        reveal_strlit(" --DEBUG");
        reveal_strlit(" --HELP");
        reveal_strlit("--debug");
        reveal_strlit("--help");
        reveal_strlit("--max=");
        reveal_strlit("--min=");
        reveal_strlit("--n_vnodes=");
        reveal_strlit("--port=");
        reveal_strlit("--role=");
        reveal_strlit("-D");
        reveal_strlit("-H");
        reveal_strlit("-d");
        reveal_strlit("-h");
        reveal_strlit("-mn=");
        reveal_strlit("-mx=");
        reveal_strlit("-n=");
        reveal_strlit("-p=");
        reveal_strlit("-r=");
        lemma_after_flag("-mn="@, v);
        lemma_flag_differs("-mn="@, v, "-d"@, 1);
        lemma_flag_differs("-mn="@, v, "--debug"@, 1);
        lemma_flag_differs("-mn="@, v, " --DEBUG"@, 0);
        lemma_flag_differs("-mn="@, v, "-D"@, 1);
        lemma_flag_differs("-mn="@, v, "-h"@, 1);
        lemma_flag_differs("-mn="@, v, "--help"@, 1);
        lemma_flag_differs("-mn="@, v, " --HELP"@, 0);
        lemma_flag_differs("-mn="@, v, "-H"@, 1);
        lemma_flag_differs("-mn="@, v, "--role="@, 1);
        lemma_flag_differs("-mn="@, v, "-r="@, 1);
        lemma_flag_differs("-mn="@, v, "--n_vnodes="@, 1);
        lemma_flag_differs("-mn="@, v, "-n="@, 1);
        lemma_flag_differs("-mn="@, v, "--port="@, 1);
        lemma_flag_differs("-mn="@, v, "-p="@, 1);
        lemma_flag_differs("-mn="@, v, "--max="@, 1);
        lemma_flag_differs("-mn="@, v, "-mx="@, 2);
        lemma_flag_differs("-mn="@, v, "--min="@, 1);
    }
}

/// `--cap=` and `-c=` followed by an unsigned number: sets the cache capacity to that number; anything else is refused.
pub proof fn law_cap_flags(c: CliView, v: Seq<char>)
    ensures
        parse_uint(v) is Some && parse_uint(v)->0 <= usize::MAX ==> apply_arg(c, "--cap="@ + v) == Ok::<CliView, ArgError>(CliView { cache_cap: Some(parse_uint(v)->0 as usize), ..c }),
        parse_uint(v) is Some && parse_uint(v)->0 <= usize::MAX ==> apply_arg(c, "-c="@ + v) == Ok::<CliView, ArgError>(CliView { cache_cap: Some(parse_uint(v)->0 as usize), ..c }),
        !(parse_uint(v) is Some && parse_uint(v)->0 <= usize::MAX) ==> apply_arg(c, "--cap="@ + v) == Err::<CliView, ArgError>(ArgError::BadCap),
        !(parse_uint(v) is Some && parse_uint(v)->0 <= usize::MAX) ==> apply_arg(c, "-c="@ + v) == Err::<CliView, ArgError>(ArgError::BadCap),
{
    assert(apply_arg(c, "--cap="@ + v) == match parse_bounded(v, usize::MAX as nat) {
        Some(x) => Ok::<CliView, ArgError>(CliView { cache_cap: Some(x as usize), ..c }),
        None => Err::<CliView, ArgError>(ArgError::BadCap),
    }) by {
        reveal_strlit(" --DEBUG");
        reveal_strlit(" --HELP");
        reveal_strlit("--cap=");
        reveal_strlit("--debug");
        reveal_strlit("--help");
        reveal_strlit("--max=");
        reveal_strlit("--min=");
        reveal_strlit("--n_vnodes=");
        reveal_strlit("--port=");
        reveal_strlit("--role=");
        reveal_strlit("-D");
        reveal_strlit("-H");
        reveal_strlit("-d");
        reveal_strlit("-h");
        reveal_strlit("-mn=");
        reveal_strlit("-mx=");
        reveal_strlit("-n=");
        reveal_strlit("-p=");
        reveal_strlit("-r=");
        lemma_after_flag("--cap="@, v);
        lemma_flag_differs("--cap="@, v, "-d"@, 1);
        lemma_flag_differs("--cap="@, v, "--debug"@, 2);
        lemma_flag_differs("--cap="@, v, " --DEBUG"@, 0);
        lemma_flag_differs("--cap="@, v, "-D"@, 1);
        lemma_flag_differs("--cap="@, v, "-h"@, 1);
        lemma_flag_differs("--cap="@, v, "--help"@, 2);
        lemma_flag_differs("--cap="@, v, " --HELP"@, 0);
        lemma_flag_differs("--cap="@, v, "-H"@, 1);
        lemma_flag_differs("--cap="@, v, "--role="@, 2);
        lemma_flag_differs("--cap="@, v, "-r="@, 1);
        lemma_flag_differs("--cap="@, v, "--n_vnodes="@, 2);
        lemma_flag_differs("--cap="@, v, "-n="@, 1);
        lemma_flag_differs("--cap="@, v, "--port="@, 2);
        lemma_flag_differs("--cap="@, v, "-p="@, 1);
        lemma_flag_differs("--cap="@, v, "--max="@, 2);
        lemma_flag_differs("--cap="@, v, "-mx="@, 1);
        lemma_flag_differs("--cap="@, v, "--min="@, 2);
        lemma_flag_differs("--cap="@, v, "-mn="@, 1);
    }
    assert(apply_arg(c, "-c="@ + v) == match parse_bounded(v, usize::MAX as nat) {
        Some(x) => Ok::<CliView, ArgError>(CliView { cache_cap: Some(x as usize), ..c }),
        None => Err::<CliView, ArgError>(ArgError::BadCap),
    }) by {
        reveal_strlit(" --DEBUG");
        reveal_strlit(" --HELP");
        reveal_strlit("--cap=");
        reveal_strlit("--debug");
        reveal_strlit("--help");
        reveal_strlit("--max=");
        reveal_strlit("--min=");
        reveal_strlit("--n_vnodes=");
        reveal_strlit("--port=");
        reveal_strlit("--role=");
        reveal_strlit("-D");
        reveal_strlit("-H");
        reveal_strlit("-c=");
        reveal_strlit("-d");
        reveal_strlit("-h");
        reveal_strlit("-mn=");
        reveal_strlit("-mx=");
        reveal_strlit("-n=");
        reveal_strlit("-p=");
        reveal_strlit("-r=");
        lemma_after_flag("-c="@, v);
        lemma_flag_differs("-c="@, v, "-d"@, 1);
        lemma_flag_differs("-c="@, v, "--debug"@, 1);
        lemma_flag_differs("-c="@, v, " --DEBUG"@, 0);
        lemma_flag_differs("-c="@, v, "-D"@, 1);
        lemma_flag_differs("-c="@, v, "-h"@, 1);
        lemma_flag_differs("-c="@, v, "--help"@, 1);
        lemma_flag_differs("-c="@, v, " --HELP"@, 0);
        lemma_flag_differs("-c="@, v, "-H"@, 1);
        lemma_flag_differs("-c="@, v, "--role="@, 1);
        lemma_flag_differs("-c="@, v, "-r="@, 1);
        lemma_flag_differs("-c="@, v, "--n_vnodes="@, 1);
        lemma_flag_differs("-c="@, v, "-n="@, 1);
        lemma_flag_differs("-c="@, v, "--port="@, 1);
        lemma_flag_differs("-c="@, v, "-p="@, 1);
        lemma_flag_differs("-c="@, v, "--max="@, 1);
        lemma_flag_differs("-c="@, v, "-mx="@, 1);
        lemma_flag_differs("-c="@, v, "--min="@, 1);
        lemma_flag_differs("-c="@, v, "-mn="@, 1);
        lemma_flag_differs("-c="@, v, "--cap="@, 1);
    }
}

/// `--role=` and `-r=` set the role: the orchestrator for `master`, `main` or `orchestrator` in
/// any case and around white space, a cache node for anything else.
pub proof fn law_role_flags(c: CliView, v: Seq<char>)
    ensures
        apply_arg(c, "--role="@ + v) == Ok::<CliView, ArgError>(CliView { role: if trim(lowercase_of(v)) == "master"@ || trim(lowercase_of(v)) == "main"@ || trim(lowercase_of(v)) == "orchestrator"@ { Role::Master } else { Role::Slaves }, ..c }),
        apply_arg(c, "-r="@ + v) == Ok::<CliView, ArgError>(CliView { role: if trim(lowercase_of(v)) == "master"@ || trim(lowercase_of(v)) == "main"@ || trim(lowercase_of(v)) == "orchestrator"@ { Role::Master } else { Role::Slaves }, ..c }),
{
    assert(apply_arg(c, "--role="@ + v) == Ok::<CliView, ArgError>(CliView { role: if trim(lowercase_of(v)) == "master"@ || trim(lowercase_of(v)) == "main"@ || trim(lowercase_of(v)) == "orchestrator"@ { Role::Master } else { Role::Slaves }, ..c })) by {
        reveal_strlit(" --DEBUG");
        reveal_strlit(" --HELP");
        reveal_strlit("--debug");
        reveal_strlit("--help");
        reveal_strlit("--role=");
        reveal_strlit("-D");
        reveal_strlit("-H");
        reveal_strlit("-d");
        reveal_strlit("-h");
        lemma_after_flag("--role="@, v);
        lemma_flag_differs("--role="@, v, "-d"@, 1);
        lemma_flag_differs("--role="@, v, "--debug"@, 2);
        lemma_flag_differs("--role="@, v, " --DEBUG"@, 0);
        lemma_flag_differs("--role="@, v, "-D"@, 1);
        lemma_flag_differs("--role="@, v, "-h"@, 1);
        lemma_flag_differs("--role="@, v, "--help"@, 2);
        lemma_flag_differs("--role="@, v, " --HELP"@, 0);
        lemma_flag_differs("--role="@, v, "-H"@, 1);
    }
    assert(apply_arg(c, "-r="@ + v) == Ok::<CliView, ArgError>(CliView { role: if trim(lowercase_of(v)) == "master"@ || trim(lowercase_of(v)) == "main"@ || trim(lowercase_of(v)) == "orchestrator"@ { Role::Master } else { Role::Slaves }, ..c })) by {
        reveal_strlit(" --DEBUG");
        reveal_strlit(" --HELP");
        reveal_strlit("--debug");
        reveal_strlit("--help");
        reveal_strlit("--role=");
        reveal_strlit("-D");
        reveal_strlit("-H");
        reveal_strlit("-d");
        reveal_strlit("-h");
        reveal_strlit("-r=");
        lemma_after_flag("-r="@, v);
        lemma_flag_differs("-r="@, v, "-d"@, 1);
        lemma_flag_differs("-r="@, v, "--debug"@, 1);
        lemma_flag_differs("-r="@, v, " --DEBUG"@, 0);
        lemma_flag_differs("-r="@, v, "-D"@, 1);
        lemma_flag_differs("-r="@, v, "-h"@, 1);
        lemma_flag_differs("-r="@, v, "--help"@, 1);
        lemma_flag_differs("-r="@, v, " --HELP"@, 0);
        lemma_flag_differs("-r="@, v, "-H"@, 1);
        lemma_flag_differs("-r="@, v, "--role="@, 1);
    }
}

/// `--evic_policy=` and `-ep=` record the name of the eviction policy that follows.
pub proof fn law_evic_flags(c: CliView, v: Seq<char>)
    ensures
        apply_arg(c, "--evic_policy="@ + v) == Ok::<CliView, ArgError>(CliView { evic_policy: Some(v), ..c }),
        apply_arg(c, "-ep="@ + v) == Ok::<CliView, ArgError>(CliView { evic_policy: Some(v), ..c }),
{
    assert(apply_arg(c, "--evic_policy="@ + v) == Ok::<CliView, ArgError>(CliView { evic_policy: Some(v), ..c })) by {
        reveal_strlit(" --DEBUG");
        reveal_strlit(" --HELP");
        reveal_strlit("--cap=");
        reveal_strlit("--debug");
        reveal_strlit("--evic_policy=");
        reveal_strlit("--help");
        reveal_strlit("--max=");
        reveal_strlit("--min=");
        reveal_strlit("--n_vnodes=");
        reveal_strlit("--port=");
        reveal_strlit("--role=");
        reveal_strlit("-D");
        reveal_strlit("-H");
        reveal_strlit("-c=");
        reveal_strlit("-d");
        reveal_strlit("-h");
        reveal_strlit("-mn=");
        reveal_strlit("-mx=");
        reveal_strlit("-n=");
        reveal_strlit("-p=");
        reveal_strlit("-r=");
        lemma_after_flag("--evic_policy="@, v);
        lemma_flag_differs("--evic_policy="@, v, "-d"@, 1);
        lemma_flag_differs("--evic_policy="@, v, "--debug"@, 2);
        lemma_flag_differs("--evic_policy="@, v, " --DEBUG"@, 0);
        lemma_flag_differs("--evic_policy="@, v, "-D"@, 1);
        lemma_flag_differs("--evic_policy="@, v, "-h"@, 1);
        lemma_flag_differs("--evic_policy="@, v, "--help"@, 2);
        lemma_flag_differs("--evic_policy="@, v, " --HELP"@, 0);
        lemma_flag_differs("--evic_policy="@, v, "-H"@, 1);
        lemma_flag_differs("--evic_policy="@, v, "--role="@, 2);
        lemma_flag_differs("--evic_policy="@, v, "-r="@, 1);
        lemma_flag_differs("--evic_policy="@, v, "--n_vnodes="@, 2);
        lemma_flag_differs("--evic_policy="@, v, "-n="@, 1);
        lemma_flag_differs("--evic_policy="@, v, "--port="@, 2);
        lemma_flag_differs("--evic_policy="@, v, "-p="@, 1);
        lemma_flag_differs("--evic_policy="@, v, "--max="@, 2);
        lemma_flag_differs("--evic_policy="@, v, "-mx="@, 1);
        lemma_flag_differs("--evic_policy="@, v, "--min="@, 2);
        lemma_flag_differs("--evic_policy="@, v, "-mn="@, 1);
        lemma_flag_differs("--evic_policy="@, v, "--cap="@, 2);
        lemma_flag_differs("--evic_policy="@, v, "-c="@, 1);
    }
    assert(apply_arg(c, "-ep="@ + v) == Ok::<CliView, ArgError>(CliView { evic_policy: Some(v), ..c })) by {
        reveal_strlit(" --DEBUG");
        reveal_strlit(" --HELP");
        reveal_strlit("--cap=");
        reveal_strlit("--debug");
        reveal_strlit("--evic_policy=");
        reveal_strlit("--help");
        reveal_strlit("--max=");
        reveal_strlit("--min=");
        reveal_strlit("--n_vnodes=");
        reveal_strlit("--port=");
        reveal_strlit("--role=");
        reveal_strlit("-D");
        reveal_strlit("-H");
        reveal_strlit("-c=");
        reveal_strlit("-d");
        reveal_strlit("-ep=");
        reveal_strlit("-h");
        reveal_strlit("-mn=");
        reveal_strlit("-mx=");
        reveal_strlit("-n=");
        reveal_strlit("-p=");
        reveal_strlit("-r=");
        lemma_after_flag("-ep="@, v);
        lemma_flag_differs("-ep="@, v, "-d"@, 1);
        lemma_flag_differs("-ep="@, v, "--debug"@, 1);
        lemma_flag_differs("-ep="@, v, " --DEBUG"@, 0);
        lemma_flag_differs("-ep="@, v, "-D"@, 1);
        lemma_flag_differs("-ep="@, v, "-h"@, 1);
        lemma_flag_differs("-ep="@, v, "--help"@, 1);
        lemma_flag_differs("-ep="@, v, " --HELP"@, 0);
        lemma_flag_differs("-ep="@, v, "-H"@, 1);
        lemma_flag_differs("-ep="@, v, "--role="@, 1);
        lemma_flag_differs("-ep="@, v, "-r="@, 1);
        lemma_flag_differs("-ep="@, v, "--n_vnodes="@, 1);
        lemma_flag_differs("-ep="@, v, "-n="@, 1);
        lemma_flag_differs("-ep="@, v, "--port="@, 1);
        lemma_flag_differs("-ep="@, v, "-p="@, 1);
        lemma_flag_differs("-ep="@, v, "--max="@, 1);
        lemma_flag_differs("-ep="@, v, "-mx="@, 1);
        lemma_flag_differs("-ep="@, v, "--min="@, 1);
        lemma_flag_differs("-ep="@, v, "-mn="@, 1);
        lemma_flag_differs("-ep="@, v, "--cap="@, 1);
        lemma_flag_differs("-ep="@, v, "-c="@, 1);
        lemma_flag_differs("-ep="@, v, "--evic_policy="@, 1);
    }
}


/// Whether `s` holds no bracket.
pub open spec fn no_brackets(s: Seq<char>) -> bool {
    forall|i: int| 0 <= i < s.len() ==> #[trigger] s[i] != '[' && s[i] != ']'
}

/// An argument made of a flag `f` that ends in its only `[` and holds no `]`, names `inner`
/// without brackets, and `]`, begins with `f`, ends with `]`, and lists the names of `inner`.
proof fn lemma_bracket_flag(f: Seq<char>, inner: Seq<char>)
    requires
        f.len() > 0,
        f[f.len() - 1] == '[',
        forall|j: int| 0 <= j < f.len() - 1 ==> f[j] != '[',
        forall|j: int| 0 <= j < f.len() ==> f[j] != ']',
        no_brackets(inner),
    ensures
        starts_with(f + inner + "]"@, f),
        ends_with(f + inner + "]"@, "]"@),
        bracket_list(f + inner + "]"@) == split(inner, ','),
{
    reveal_strlit("]");
    let a = f + inner + "]"@;
    let k = f.len() - 1;
    let e: int = (f.len() + inner.len()) as int;
    assert(a.len() == e + 1);
    assert forall|j: int| 0 <= j < k implies a[j] != '[' by {
        assert(a[j] == f[j]);
    }
    lemma_find_from_skip(a, '[', k);
    assert(a[k] == '[');
    assert(find(a, '[') == Some(k));
    assert forall|j: int| 0 <= j < e implies a[j] != ']' by {
        if j < f.len() {
            assert(a[j] == f[j]);
        } else {
            assert(a[j] == inner[j - f.len()]);
        }
    }
    lemma_find_from_skip(a, ']', e);
    assert(a[e] == ']');
    assert(find(a, ']') == Some(e));
    assert(a.subrange(k + 1, e) =~= inner);
    assert(a.subrange(0, f.len() as int) =~= f);
    assert(a.subrange(a.len() - 1, a.len() as int) =~= "]"@);
}

/// `--replica[a,b,..]` (also `--replicas[..]` and `-rep[..]`) adds the comma-separated names
/// between the brackets to the redundancy targets, in order.
pub proof fn law_replica_flags(c: CliView, inner: Seq<char>)
    ensures
        no_brackets(inner) ==> apply_arg(c, "--replica["@ + inner + "]"@) == Ok::<CliView, ArgError>(CliView { replica: c.replica + split(inner, ','), ..c }),
        no_brackets(inner) ==> apply_arg(c, "--replicas["@ + inner + "]"@) == Ok::<CliView, ArgError>(CliView { replica: c.replica + split(inner, ','), ..c }),
        no_brackets(inner) ==> apply_arg(c, "-rep["@ + inner + "]"@) == Ok::<CliView, ArgError>(CliView { replica: c.replica + split(inner, ','), ..c }),
{
    assert(no_brackets(inner) ==> apply_arg(c, "--replica["@ + inner + "]"@) == Ok::<CliView, ArgError>(CliView { replica: c.replica + split(inner, ','), ..c })) by {
        if no_brackets(inner) {
        reveal_strlit(" --DEBUG");
        reveal_strlit(" --HELP");
        reveal_strlit("--cap=");
        reveal_strlit("--debug");
        reveal_strlit("--evic_policy=");
        reveal_strlit("--help");
        reveal_strlit("--max=");
        reveal_strlit("--min=");
        reveal_strlit("--n_vnodes=");
        reveal_strlit("--port=");
        reveal_strlit("--replica[");
        reveal_strlit("--role=");
        reveal_strlit("-D");
        reveal_strlit("-H");
        reveal_strlit("-c=");
        reveal_strlit("-d");
        reveal_strlit("-ep=");
        reveal_strlit("-h");
        reveal_strlit("-mn=");
        reveal_strlit("-mx=");
        reveal_strlit("-n=");
        reveal_strlit("-p=");
        reveal_strlit("-r=");
        reveal_strlit("]");
        lemma_bracket_flag("--replica["@, inner);
        lemma_flag_differs("--replica["@, inner + "]"@, "-d"@, 1);
        lemma_flag_differs("--replica["@, inner + "]"@, "--debug"@, 2);
        lemma_flag_differs("--replica["@, inner + "]"@, " --DEBUG"@, 0);
        lemma_flag_differs("--replica["@, inner + "]"@, "-D"@, 1);
        lemma_flag_differs("--replica["@, inner + "]"@, "-h"@, 1);
        lemma_flag_differs("--replica["@, inner + "]"@, "--help"@, 2);
        lemma_flag_differs("--replica["@, inner + "]"@, " --HELP"@, 0);
        lemma_flag_differs("--replica["@, inner + "]"@, "-H"@, 1);
        lemma_flag_differs("--replica["@, inner + "]"@, "--role="@, 3);
        lemma_flag_differs("--replica["@, inner + "]"@, "-r="@, 1);
        lemma_flag_differs("--replica["@, inner + "]"@, "--n_vnodes="@, 2);
        lemma_flag_differs("--replica["@, inner + "]"@, "-n="@, 1);
        lemma_flag_differs("--replica["@, inner + "]"@, "--port="@, 2);
        lemma_flag_differs("--replica["@, inner + "]"@, "-p="@, 1);
        lemma_flag_differs("--replica["@, inner + "]"@, "--max="@, 2);
        lemma_flag_differs("--replica["@, inner + "]"@, "-mx="@, 1);
        lemma_flag_differs("--replica["@, inner + "]"@, "--min="@, 2);
        lemma_flag_differs("--replica["@, inner + "]"@, "-mn="@, 1);
        lemma_flag_differs("--replica["@, inner + "]"@, "--cap="@, 2);
        lemma_flag_differs("--replica["@, inner + "]"@, "-c="@, 1);
        lemma_flag_differs("--replica["@, inner + "]"@, "--evic_policy="@, 2);
        lemma_flag_differs("--replica["@, inner + "]"@, "-ep="@, 1);
            assert("--replica["@ + inner + "]"@ =~= "--replica["@ + (inner + "]"@));
        }
    }
    assert(no_brackets(inner) ==> apply_arg(c, "--replicas["@ + inner + "]"@) == Ok::<CliView, ArgError>(CliView { replica: c.replica + split(inner, ','), ..c })) by {
        if no_brackets(inner) {
        reveal_strlit(" --DEBUG");
        reveal_strlit(" --HELP");
        reveal_strlit("--cap=");
        reveal_strlit("--debug");
        reveal_strlit("--evic_policy=");
        reveal_strlit("--help");
        reveal_strlit("--max=");
        reveal_strlit("--min=");
        reveal_strlit("--n_vnodes=");
        reveal_strlit("--port=");
        reveal_strlit("--replicas[");
        reveal_strlit("--role=");
        reveal_strlit("-D");
        reveal_strlit("-H");
        reveal_strlit("-c=");
        reveal_strlit("-d");
        reveal_strlit("-ep=");
        reveal_strlit("-h");
        reveal_strlit("-mn=");
        reveal_strlit("-mx=");
        reveal_strlit("-n=");
        reveal_strlit("-p=");
        reveal_strlit("-r=");
        reveal_strlit("]");
        lemma_bracket_flag("--replicas["@, inner);
        lemma_flag_differs("--replicas["@, inner + "]"@, "-d"@, 1);
        lemma_flag_differs("--replicas["@, inner + "]"@, "--debug"@, 2);
        lemma_flag_differs("--replicas["@, inner + "]"@, " --DEBUG"@, 0);
        lemma_flag_differs("--replicas["@, inner + "]"@, "-D"@, 1);
        lemma_flag_differs("--replicas["@, inner + "]"@, "-h"@, 1);
        lemma_flag_differs("--replicas["@, inner + "]"@, "--help"@, 2);
        lemma_flag_differs("--replicas["@, inner + "]"@, " --HELP"@, 0);
        lemma_flag_differs("--replicas["@, inner + "]"@, "-H"@, 1);
        lemma_flag_differs("--replicas["@, inner + "]"@, "--role="@, 3);
        lemma_flag_differs("--replicas["@, inner + "]"@, "-r="@, 1);
        lemma_flag_differs("--replicas["@, inner + "]"@, "--n_vnodes="@, 2);
        lemma_flag_differs("--replicas["@, inner + "]"@, "-n="@, 1);
        lemma_flag_differs("--replicas["@, inner + "]"@, "--port="@, 2);
        lemma_flag_differs("--replicas["@, inner + "]"@, "-p="@, 1);
        lemma_flag_differs("--replicas["@, inner + "]"@, "--max="@, 2);
        lemma_flag_differs("--replicas["@, inner + "]"@, "-mx="@, 1);
        lemma_flag_differs("--replicas["@, inner + "]"@, "--min="@, 2);
        lemma_flag_differs("--replicas["@, inner + "]"@, "-mn="@, 1);
        lemma_flag_differs("--replicas["@, inner + "]"@, "--cap="@, 2);
        lemma_flag_differs("--replicas["@, inner + "]"@, "-c="@, 1);
        lemma_flag_differs("--replicas["@, inner + "]"@, "--evic_policy="@, 2);
        lemma_flag_differs("--replicas["@, inner + "]"@, "-ep="@, 1);
            assert("--replicas["@ + inner + "]"@ =~= "--replicas["@ + (inner + "]"@));
        }
    }
    assert(no_brackets(inner) ==> apply_arg(c, "-rep["@ + inner + "]"@) == Ok::<CliView, ArgError>(CliView { replica: c.replica + split(inner, ','), ..c })) by {
        if no_brackets(inner) {
        reveal_strlit(" --DEBUG");
        reveal_strlit(" --HELP");
        reveal_strlit("--cap=");
        reveal_strlit("--debug");
        reveal_strlit("--evic_policy=");
        reveal_strlit("--help");
        reveal_strlit("--max=");
        reveal_strlit("--min=");
        reveal_strlit("--n_vnodes=");
        reveal_strlit("--port=");
        reveal_strlit("--role=");
        reveal_strlit("-D");
        reveal_strlit("-H");
        reveal_strlit("-c=");
        reveal_strlit("-d");
        reveal_strlit("-ep=");
        reveal_strlit("-h");
        reveal_strlit("-mn=");
        reveal_strlit("-mx=");
        reveal_strlit("-n=");
        reveal_strlit("-p=");
        reveal_strlit("-r=");
        reveal_strlit("-rep[");
        reveal_strlit("]");
        lemma_bracket_flag("-rep["@, inner);
        lemma_flag_differs("-rep["@, inner + "]"@, "-d"@, 1);
        lemma_flag_differs("-rep["@, inner + "]"@, "--debug"@, 1);
        lemma_flag_differs("-rep["@, inner + "]"@, " --DEBUG"@, 0);
        lemma_flag_differs("-rep["@, inner + "]"@, "-D"@, 1);
        lemma_flag_differs("-rep["@, inner + "]"@, "-h"@, 1);
        lemma_flag_differs("-rep["@, inner + "]"@, "--help"@, 1);
        lemma_flag_differs("-rep["@, inner + "]"@, " --HELP"@, 0);
        lemma_flag_differs("-rep["@, inner + "]"@, "-H"@, 1);
        lemma_flag_differs("-rep["@, inner + "]"@, "--role="@, 1);
        lemma_flag_differs("-rep["@, inner + "]"@, "-r="@, 2);
        lemma_flag_differs("-rep["@, inner + "]"@, "--n_vnodes="@, 1);
        lemma_flag_differs("-rep["@, inner + "]"@, "-n="@, 1);
        lemma_flag_differs("-rep["@, inner + "]"@, "--port="@, 1);
        lemma_flag_differs("-rep["@, inner + "]"@, "-p="@, 1);
        lemma_flag_differs("-rep["@, inner + "]"@, "--max="@, 1);
        lemma_flag_differs("-rep["@, inner + "]"@, "-mx="@, 1);
        lemma_flag_differs("-rep["@, inner + "]"@, "--min="@, 1);
        lemma_flag_differs("-rep["@, inner + "]"@, "-mn="@, 1);
        lemma_flag_differs("-rep["@, inner + "]"@, "--cap="@, 1);
        lemma_flag_differs("-rep["@, inner + "]"@, "-c="@, 1);
        lemma_flag_differs("-rep["@, inner + "]"@, "--evic_policy="@, 1);
        lemma_flag_differs("-rep["@, inner + "]"@, "-ep="@, 1);
            assert("-rep["@ + inner + "]"@ =~= "-rep["@ + (inner + "]"@));
        }
    }
}

/// `--node[a,b,..]` (also `--nodes[..]`) adds the comma-separated names between the brackets
/// to the nodes, in order.
pub proof fn law_nodes_flags(c: CliView, inner: Seq<char>)
    ensures
        no_brackets(inner) ==> apply_arg(c, "--node["@ + inner + "]"@) == Ok::<CliView, ArgError>(CliView { nodes: c.nodes + split(inner, ','), ..c }),
        no_brackets(inner) ==> apply_arg(c, "--nodes["@ + inner + "]"@) == Ok::<CliView, ArgError>(CliView { nodes: c.nodes + split(inner, ','), ..c }),
{
    assert(no_brackets(inner) ==> apply_arg(c, "--node["@ + inner + "]"@) == Ok::<CliView, ArgError>(CliView { nodes: c.nodes + split(inner, ','), ..c })) by {
        if no_brackets(inner) {
        reveal_strlit(" --DEBUG");
        reveal_strlit(" --HELP");
        reveal_strlit("--cap=");
        reveal_strlit("--debug");
        reveal_strlit("--evic_policy=");
        reveal_strlit("--help");
        reveal_strlit("--max=");
        reveal_strlit("--min=");
        reveal_strlit("--n_vnodes=");
        reveal_strlit("--node[");
        reveal_strlit("--port=");
        reveal_strlit("--replica[");
        reveal_strlit("--replicas[");
        reveal_strlit("--role=");
        reveal_strlit("-D");
        reveal_strlit("-H");
        reveal_strlit("-c=");
        reveal_strlit("-d");
        reveal_strlit("-ep=");
        reveal_strlit("-h");
        reveal_strlit("-mn=");
        reveal_strlit("-mx=");
        reveal_strlit("-n=");
        reveal_strlit("-p=");
        reveal_strlit("-r=");
        reveal_strlit("-rep[");
        reveal_strlit("]");
        lemma_bracket_flag("--node["@, inner);
        lemma_flag_differs("--node["@, inner + "]"@, "-d"@, 1);
        lemma_flag_differs("--node["@, inner + "]"@, "--debug"@, 2);
        lemma_flag_differs("--node["@, inner + "]"@, " --DEBUG"@, 0);
        lemma_flag_differs("--node["@, inner + "]"@, "-D"@, 1);
        lemma_flag_differs("--node["@, inner + "]"@, "-h"@, 1);
        lemma_flag_differs("--node["@, inner + "]"@, "--help"@, 2);
        lemma_flag_differs("--node["@, inner + "]"@, " --HELP"@, 0);
        lemma_flag_differs("--node["@, inner + "]"@, "-H"@, 1);
        lemma_flag_differs("--node["@, inner + "]"@, "--role="@, 2);
        lemma_flag_differs("--node["@, inner + "]"@, "-r="@, 1);
        lemma_flag_differs("--node["@, inner + "]"@, "--n_vnodes="@, 3);
        lemma_flag_differs("--node["@, inner + "]"@, "-n="@, 1);
        lemma_flag_differs("--node["@, inner + "]"@, "--port="@, 2);
        lemma_flag_differs("--node["@, inner + "]"@, "-p="@, 1);
        lemma_flag_differs("--node["@, inner + "]"@, "--max="@, 2);
        lemma_flag_differs("--node["@, inner + "]"@, "-mx="@, 1);
        lemma_flag_differs("--node["@, inner + "]"@, "--min="@, 2);
        lemma_flag_differs("--node["@, inner + "]"@, "-mn="@, 1);
        lemma_flag_differs("--node["@, inner + "]"@, "--cap="@, 2);
        lemma_flag_differs("--node["@, inner + "]"@, "-c="@, 1);
        lemma_flag_differs("--node["@, inner + "]"@, "--evic_policy="@, 2);
        lemma_flag_differs("--node["@, inner + "]"@, "-ep="@, 1);
        lemma_flag_differs("--node["@, inner + "]"@, "--replica["@, 2);
        lemma_flag_differs("--node["@, inner + "]"@, "--replicas["@, 2);
        lemma_flag_differs("--node["@, inner + "]"@, "-rep["@, 1);
            assert("--node["@ + inner + "]"@ =~= "--node["@ + (inner + "]"@));
        }
    }
    assert(no_brackets(inner) ==> apply_arg(c, "--nodes["@ + inner + "]"@) == Ok::<CliView, ArgError>(CliView { nodes: c.nodes + split(inner, ','), ..c })) by {
        if no_brackets(inner) {
        reveal_strlit(" --DEBUG");
        reveal_strlit(" --HELP");
        reveal_strlit("--cap=");
        reveal_strlit("--debug");
        reveal_strlit("--evic_policy=");
        reveal_strlit("--help");
        reveal_strlit("--max=");
        reveal_strlit("--min=");
        reveal_strlit("--n_vnodes=");
        reveal_strlit("--nodes[");
        reveal_strlit("--port=");
        reveal_strlit("--replica[");
        reveal_strlit("--replicas[");
        reveal_strlit("--role=");
        reveal_strlit("-D");
        reveal_strlit("-H");
        reveal_strlit("-c=");
        reveal_strlit("-d");
        reveal_strlit("-ep=");
        reveal_strlit("-h");
        reveal_strlit("-mn=");
        reveal_strlit("-mx=");
        reveal_strlit("-n=");
        reveal_strlit("-p=");
        reveal_strlit("-r=");
        reveal_strlit("-rep[");
        reveal_strlit("]");
        lemma_bracket_flag("--nodes["@, inner);
        lemma_flag_differs("--nodes["@, inner + "]"@, "-d"@, 1);
        lemma_flag_differs("--nodes["@, inner + "]"@, "--debug"@, 2);
        lemma_flag_differs("--nodes["@, inner + "]"@, " --DEBUG"@, 0);
        lemma_flag_differs("--nodes["@, inner + "]"@, "-D"@, 1);
        lemma_flag_differs("--nodes["@, inner + "]"@, "-h"@, 1);
        lemma_flag_differs("--nodes["@, inner + "]"@, "--help"@, 2);
        lemma_flag_differs("--nodes["@, inner + "]"@, " --HELP"@, 0);
        lemma_flag_differs("--nodes["@, inner + "]"@, "-H"@, 1);
        lemma_flag_differs("--nodes["@, inner + "]"@, "--role="@, 2);
        lemma_flag_differs("--nodes["@, inner + "]"@, "-r="@, 1);
        lemma_flag_differs("--nodes["@, inner + "]"@, "--n_vnodes="@, 3);
        lemma_flag_differs("--nodes["@, inner + "]"@, "-n="@, 1);
        lemma_flag_differs("--nodes["@, inner + "]"@, "--port="@, 2);
        lemma_flag_differs("--nodes["@, inner + "]"@, "-p="@, 1);
        lemma_flag_differs("--nodes["@, inner + "]"@, "--max="@, 2);
        lemma_flag_differs("--nodes["@, inner + "]"@, "-mx="@, 1);
        lemma_flag_differs("--nodes["@, inner + "]"@, "--min="@, 2);
        lemma_flag_differs("--nodes["@, inner + "]"@, "-mn="@, 1);
        lemma_flag_differs("--nodes["@, inner + "]"@, "--cap="@, 2);
        lemma_flag_differs("--nodes["@, inner + "]"@, "-c="@, 1);
        lemma_flag_differs("--nodes["@, inner + "]"@, "--evic_policy="@, 2);
        lemma_flag_differs("--nodes["@, inner + "]"@, "-ep="@, 1);
        lemma_flag_differs("--nodes["@, inner + "]"@, "--replica["@, 2);
        lemma_flag_differs("--nodes["@, inner + "]"@, "--replicas["@, 2);
        lemma_flag_differs("--nodes["@, inner + "]"@, "-rep["@, 1);
            assert("--nodes["@ + inner + "]"@ =~= "--nodes["@ + (inner + "]"@));
        }
    }
}


/// Arguments are taken one after another: taking `a` then `b` is taking `a + b`, and a
/// refused argument stops the rest; an empty command line changes nothing.
pub proof fn law_args_compose(c: CliView, a: Seq<Seq<char>>, b: Seq<Seq<char>>)
    ensures
        apply_args(c, Seq::empty()) == Ok::<CliView, ArgError>(c),
        apply_args(c, a + b) == (match apply_args(c, a) {
            Ok(c1) => apply_args(c1, b),
            Err(e) => Err(e),
        }),
    decreases a.len(),
{
    if a.len() > 0 {
        assert((a + b).drop_first() =~= a.drop_first() + b);
        assert((a + b)[0] == a[0]);
        match apply_arg(c, a[0]) {
            Ok(c2) => {
                law_args_compose(c2, a.drop_first(), b);
            },
            Err(e) => {},
        }
    } else {
        assert(a + b =~= b);
    }
}

/// A single argument is taken as `apply_arg` says.
pub proof fn law_one_arg(c: CliView, a: Seq<char>)
    ensures
        apply_args(c, seq![a]) == apply_arg(c, a),
{
    assert(seq![a].drop_first() =~= Seq::<Seq<char>>::empty());
    assert(seq![a][0] == a);
    match apply_arg(c, a) {
        Ok(c2) => {
            assert(apply_args(c2, Seq::<Seq<char>>::empty()) == Ok::<CliView, ArgError>(c2));
        },
        Err(_) => {},
    }
}

} // verus!
