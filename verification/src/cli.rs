//! The design tool's command line.  Every option can also be set in the
//! JSON design file; an option given here overrides the file's value, so
//! each one is kept as "not given" until it is passed.  Options take their
//! value as `--opt value` or `--opt=value`.
use vstd::prelude::*;
use crate::text::{
    chars_of, find_lower, first_index_of, float_literal_at, is_float_literal, lower, opt_view,
    parse_usize_at, parse_usize_spec, str_eq, string_of,
};
use crate::cache::key_views;

verus! {

/// The options as read.
#[derive(Debug)]
pub struct Args {
    /// The JSON design file (default `prop_design.json`).
    pub param: String,
    pub n: Option<usize>,
    pub bem: Option<bool>,
    pub lifting_line: Option<bool>,
    pub auto: Option<bool>,
    pub resolution: Option<usize>,
    pub dir: Option<String>,
    pub step_file: Option<String>,
    pub plate: Option<bool>,
    /// The `--ar` literal (a floating-point literal).
    pub ar: Option<String>,
    pub chord_spline_n: Option<usize>,
    /// The `--camber` literal (a floating-point literal).
    pub camber: Option<String>,
    pub cst: Option<bool>,
    pub help: bool,
}

/// The options in the abstract.
pub struct ArgsView {
    pub param: Seq<char>,
    pub n: Option<usize>,
    pub bem: Option<bool>,
    pub lifting_line: Option<bool>,
    pub auto: Option<bool>,
    pub resolution: Option<usize>,
    pub dir: Option<Seq<char>>,
    pub step_file: Option<Seq<char>>,
    pub plate: Option<bool>,
    pub ar: Option<Seq<char>>,
    pub chord_spline_n: Option<usize>,
    pub camber: Option<Seq<char>>,
    pub cst: Option<bool>,
    pub help: bool,
}

impl Args {
    pub open spec fn view_of(&self) -> ArgsView {
        ArgsView {
            param: self.param@,
            n: self.n,
            bem: self.bem,
            lifting_line: self.lifting_line,
            auto: self.auto,
            resolution: self.resolution,
            dir: opt_view(self.dir),
            step_file: opt_view(self.step_file),
            plate: self.plate,
            ar: opt_view(self.ar),
            chord_spline_n: self.chord_spline_n,
            camber: opt_view(self.camber),
            cst: self.cst,
            help: self.help,
        }
    }
}

pub open spec fn default_args() -> ArgsView {
    ArgsView {
        param: "prop_design.json"@,
        n: None,
        bem: None,
        lifting_line: None,
        auto: None,
        resolution: None,
        dir: None,
        step_file: None,
        plate: None,
        ar: None,
        chord_spline_n: None,
        camber: None,
        cst: None,
        help: false,
    }
}

/// An argument's option name: the text before its first `=`.
pub open spec fn option_name(a: Seq<char>) -> Seq<char> {
    a.take(first_index_of(a, '=') as int)
}

/// An argument's inline value: the text after its first `=`, if any.
pub open spec fn inline_value(a: Seq<char>) -> Option<Seq<char>> {
    let k = first_index_of(a, '=') as int;
    if k < a.len() {
        Some(a.skip(k + 1))
    } else {
        None
    }
}

/// The value of the option at `i` and where the scan resumes: the inline
/// value, else the next argument; `None` when there is neither.
pub open spec fn option_value(args: Seq<Seq<char>>, i: int) -> Option<(Seq<char>, int)> {
    match inline_value(args[i]) {
        Some(v) => Some((v, i + 1)),
        None => if i + 1 < args.len() {
            Some((args[i + 1], i + 2))
        } else {
            None
        },
    }
}

pub open spec fn needs_value(name: Seq<char>) -> Seq<char> {
    name + " needs a value"@
}

pub open spec fn is_value_option(name: Seq<char>) -> bool {
    ||| name == "--param"@
    ||| name == "--n"@
    ||| name == "--resolution"@
    ||| name == "--dir"@
    ||| name == "--step-file"@
    ||| name == "--ar"@
    ||| name == "--chord-spline-n"@
    ||| name == "--camber"@
}

/// Apply an option that takes a value.
pub open spec fn with_value(st: ArgsView, name: Seq<char>, v: Seq<char>) -> Result<ArgsView, Seq<char>> {
    if name == "--param"@ {
        Ok(ArgsView { param: v, ..st })
    } else if name == "--n"@ {
        match parse_usize_spec(v) {
            Some(x) => Ok(ArgsView { n: Some(x), ..st }),
            None => Err("bad --n"@),
        }
    } else if name == "--resolution"@ {
        match parse_usize_spec(v) {
            Some(x) => Ok(ArgsView { resolution: Some(x), ..st }),
            None => Err("bad --resolution"@),
        }
    } else if name == "--dir"@ {
        Ok(ArgsView { dir: Some(v), ..st })
    } else if name == "--step-file"@ {
        Ok(ArgsView { step_file: Some(v), ..st })
    } else if name == "--ar"@ {
        if is_float_literal(v) {
            Ok(ArgsView { ar: Some(v), ..st })
        } else {
            Err("bad --ar"@)
        }
    } else if name == "--chord-spline-n"@ {
        match parse_usize_spec(v) {
            Some(x) => Ok(ArgsView { chord_spline_n: Some(x), ..st }),
            None => Err("bad --chord-spline-n"@),
        }
    } else {
        if is_float_literal(v) {
            Ok(ArgsView { camber: Some(v), ..st })
        } else {
            Err("bad --camber"@)
        }
    }
}

/// Apply an option that takes no value.
pub open spec fn with_flag(st: ArgsView, name: Seq<char>) -> Result<ArgsView, Seq<char>> {
    if name == "--bem"@ {
        Ok(ArgsView { bem: Some(true), ..st })
    } else if name == "--auto"@ {
        Ok(ArgsView { auto: Some(true), ..st })
    } else if name == "--naca"@ {
        Ok(st)
    } else if name == "--cst"@ {
        Ok(ArgsView { cst: Some(true), ..st })
    } else if name == "--plate"@ {
        Ok(ArgsView { plate: Some(true), ..st })
    } else if name == "--lifting-line"@ {
        Ok(ArgsView { lifting_line: Some(true), ..st })
    } else if name == "--help"@ || name == "-h"@ {
        Ok(ArgsView { help: true, ..st })
    } else if name == "--mesh"@ {
        Err("--mesh (GMSH) is not yet available"@)
    } else if name == "--arad"@ {
        Err("--arad (ARA-D foils) is not yet available"@)
    } else {
        Err("unknown argument: "@ + name)
    }
}

/// The option scan from argument `i` on.
pub open spec fn scan_args(args: Seq<Seq<char>>, i: int, st: ArgsView) -> Result<ArgsView, Seq<char>>
    decreases args.len() - i,
{
    if i < 0 || i >= args.len() {
        Ok(st)
    } else {
        let name = option_name(args[i]);
        if is_value_option(name) {
            match option_value(args, i) {
                None => Err(needs_value(name)),
                Some((v, j)) => match with_value(st, name, v) {
                    Err(e) => Err(e),
                    Ok(st2) => if j > i {
                        scan_args(args, j, st2)
                    } else {
                        Ok(st2)
                    },
                },
            }
        } else {
            match with_flag(st, name) {
                Err(e) => Err(e),
                Ok(st2) => scan_args(args, i + 1, st2),
            }
        }
    }
}

/// Read the command line (without the program name).
pub fn parse_args(args: &Vec<String>) -> (r: Result<Args, String>)
    ensures
        match scan_args(key_views(args@), 0, default_args()) {
            Ok(st) => r matches Ok(a) && a.view_of() == st,
            Err(e) => r matches Err(m) && m@ == e,
        },
{
    let ghost av = key_views(args@);
    let mut a = Args {
        param: String::from_str("prop_design.json"),
        n: None,
        bem: None,
        lifting_line: None,
        auto: None,
        resolution: None,
        dir: None,
        step_file: None,
        plate: None,
        ar: None,
        chord_spline_n: None,
        camber: None,
        cst: None,
        help: false,
    };
    let ghost start = a.view_of();
    assert(start == default_args());
    let n: usize = args.len();
    let mut i: usize = 0;
    while i < n
        invariant
            n == args@.len(),
            av == key_views(args@),
            i <= n,
            scan_args(av, 0, default_args()) == scan_args(av, i as int, a.view_of()),
        decreases n - i,
    {
        let cs = chars_of(args[i].as_str());
        let len: usize = cs.len();
        let k: usize = find_lower(&cs, 0, len, '=');
        proof {
            assert(cs@.subrange(0, len as int) =~= av[i as int]);
            assert(av[i as int] == args@[i as int]@);
        }
        let name = string_of(&cs, 0, k);
        assert(name@ == option_name(av[i as int]));
        let inline = if k < len {
            assert(cs@.subrange(k + 1, len as int) =~= av[i as int].skip(k + 1));
            Some(string_of(&cs, k + 1, len))
        } else {
            None
        };
        let nm = name.as_str();
        let takes_value = str_eq(nm, "--param") || str_eq(nm, "--n") || str_eq(nm, "--resolution")
            || str_eq(nm, "--dir") || str_eq(nm, "--step-file") || str_eq(nm, "--ar") || str_eq(
            nm,
            "--chord-spline-n",
        ) || str_eq(nm, "--camber");
        if takes_value {
            let (v, j) = match inline {
                Some(v) => (v, i + 1),
                None => if i + 1 < n {
                    (args[i + 1].clone(), i + 2)
                } else {
                    return Err(name.concat(" needs a value"));
                },
            };
            let vc = chars_of(v.as_str());
            let vl: usize = vc.len();
            assert(vc@.subrange(0, vl as int) =~= v@);
            if str_eq(nm, "--param") {
                a.param = v;
            } else if str_eq(nm, "--n") {
                match parse_usize_at(&vc, 0, vl) {
                    Some(x) => {
                        a.n = Some(x);
                    },
                    None => {
                        return Err(String::from_str("bad --n"));
                    },
                }
            } else if str_eq(nm, "--resolution") {
                match parse_usize_at(&vc, 0, vl) {
                    Some(x) => {
                        a.resolution = Some(x);
                    },
                    None => {
                        return Err(String::from_str("bad --resolution"));
                    },
                }
            } else if str_eq(nm, "--dir") {
                a.dir = Some(v);
            } else if str_eq(nm, "--step-file") {
                a.step_file = Some(v);
            } else if str_eq(nm, "--ar") {
                if float_literal_at(&vc, 0, vl) {
                    a.ar = Some(v);
                } else {
                    return Err(String::from_str("bad --ar"));
                }
            } else if str_eq(nm, "--chord-spline-n") {
                match parse_usize_at(&vc, 0, vl) {
                    Some(x) => {
                        a.chord_spline_n = Some(x);
                    },
                    None => {
                        return Err(String::from_str("bad --chord-spline-n"));
                    },
                }
            } else {
                if float_literal_at(&vc, 0, vl) {
                    a.camber = Some(v);
                } else {
                    return Err(String::from_str("bad --camber"));
                }
            }
            i = j;
        } else {
            if str_eq(nm, "--bem") {
                a.bem = Some(true);
            } else if str_eq(nm, "--auto") {
                a.auto = Some(true);
            } else if str_eq(nm, "--naca") {
            } else if str_eq(nm, "--cst") {
                a.cst = Some(true);
            } else if str_eq(nm, "--plate") {
                a.plate = Some(true);
            } else if str_eq(nm, "--lifting-line") {
                a.lifting_line = Some(true);
            } else if str_eq(nm, "--help") || str_eq(nm, "-h") {
                a.help = true;
            } else if str_eq(nm, "--mesh") {
                return Err(String::from_str("--mesh (GMSH) is not yet available"));
            } else if str_eq(nm, "--arad") {
                return Err(String::from_str("--arad (ARA-D foils) is not yet available"));
            } else {
                return Err(String::from_str("unknown argument: ").concat(nm));
            }
            i = i + 1;
        }
    }
    Ok(a)
}

/// The run options of a design: the part of the design file that the
/// command line mirrors.  The two real-valued options are a parameter: the
/// host holds them as numbers.
pub struct RunOptions<F> {
    pub bem: bool,
    pub lifting_line: bool,
    pub auto: bool,
    pub resolution: usize,
    pub n: usize,
    pub ar: Option<F>,
    pub chord_spline_n: usize,
    pub camber: Option<F>,
    pub cst: bool,
    pub plate: bool,
    pub dir: String,
    pub step_file: String,
}

/// An override: the given value, else the current one.
pub open spec fn pick<T>(given: Option<T>, current: T) -> T {
    match given {
        Some(v) => v,
        None => current,
    }
}

/// `pick` computed, for a copied value.
fn pick_copy<T: Copy>(given: Option<T>, current: T) -> (r: T)
    ensures
        r == pick(given, current),
{
    match given {
        Some(v) => v,
        None => current,
    }
}

impl<F> RunOptions<F> {
    /// The built-in defaults, used for every key the design file leaves
    /// out: the BEM loop, 40 stations per radius and 40 loft points, a
    /// 3-point chord spline, output to the current directory.
    pub fn defaults() -> (r: Self)
        ensures
            r.bem && !r.lifting_line && !r.auto,
            r.resolution == 40 && r.n == 40 && r.chord_spline_n == 3,
            r.ar is None && r.camber is None,
            !r.cst && !r.plate,
            r.dir@ == "."@,
            r.step_file@.len() == 0,
    {
        RunOptions {
            bem: true,
            lifting_line: false,
            auto: false,
            resolution: 40,
            n: 40,
            ar: None,
            chord_spline_n: crate::design::default_chord_spline_n(),
            camber: None,
            cst: false,
            plate: false,
            dir: String::from_str("."),
            step_file: String::new(),
        }
    }

    /// Apply the command line: an option given there overrides the design
    /// file's value, which stays otherwise.  `ar` and `camber` are the
    /// command line's `--ar` and `--camber` values, read as numbers.
    pub fn override_with(&mut self, args: &Args, ar: Option<F>, camber: Option<F>)
        ensures
            final(self).bem == pick(args.bem, old(self).bem),
            final(self).lifting_line == pick(args.lifting_line, old(self).lifting_line),
            final(self).auto == pick(args.auto, old(self).auto),
            final(self).resolution == pick(args.resolution, old(self).resolution),
            final(self).n == pick(args.n, old(self).n),
            final(self).ar == (if ar is Some {
                ar
            } else {
                old(self).ar
            }),
            final(self).chord_spline_n == pick(args.chord_spline_n, old(self).chord_spline_n),
            final(self).camber == (if camber is Some {
                camber
            } else {
                old(self).camber
            }),
            final(self).cst == pick(args.cst, old(self).cst),
            final(self).plate == pick(args.plate, old(self).plate),
            final(self).dir@ == pick(opt_view(args.dir), old(self).dir@),
            final(self).step_file@ == pick(opt_view(args.step_file), old(self).step_file@),
    {
        self.bem = pick_copy(args.bem, self.bem);
        self.lifting_line = pick_copy(args.lifting_line, self.lifting_line);
        self.auto = pick_copy(args.auto, self.auto);
        self.resolution = pick_copy(args.resolution, self.resolution);
        self.n = pick_copy(args.n, self.n);
        self.chord_spline_n = pick_copy(args.chord_spline_n, self.chord_spline_n);
        self.cst = pick_copy(args.cst, self.cst);
        self.plate = pick_copy(args.plate, self.plate);
        if ar.is_some() {
            self.ar = ar;
        }
        if camber.is_some() {
            self.camber = camber;
        }
        if let Some(d) = &args.dir {
            self.dir = d.clone();
        }
        if let Some(f) = &args.step_file {
            self.step_file = f.clone();
        }
    }
}

proof fn lemma_lower_equals(c: char)
    ensures
        (lower(c) == '=') == (c == '='),
{
}

proof fn lemma_first_equals_concat(x: Seq<char>, y: Seq<char>)
    requires
        forall|i: int| 0 <= i < x.len() ==> #[trigger] x[i] != '=',
    ensures
        first_index_of(x + y, '=') == x.len() + first_index_of(y, '='),
    decreases x.len(),
{
    if x.len() > 0 {
        lemma_lower_equals(x[0]);
        assert((x + y)[0] == x[0]);
        assert((x + y).drop_first() =~= x.drop_first() + y);
        lemma_first_equals_concat(x.drop_first(), y);
    } else {
        assert(x + y =~= y);
    }
}

/// No value option's name holds an `=`.
proof fn lemma_value_option_names(name: Seq<char>)
    requires
        is_value_option(name),
    ensures
        forall|i: int| 0 <= i < name.len() ==> #[trigger] name[i] != '=',
{
    reveal_strlit("--param");
    reveal_strlit("--n");
    reveal_strlit("--resolution");
    reveal_strlit("--dir");
    reveal_strlit("--step-file");
    reveal_strlit("--ar");
    reveal_strlit("--chord-spline-n");
    reveal_strlit("--camber");
}

/// The scan of the arguments after a prefix does not depend on the prefix.
proof fn lemma_scan_shift(p: Seq<Seq<char>>, r: Seq<Seq<char>>, i: int, st: ArgsView)
    requires
        0 <= i <= r.len(),
    ensures
        scan_args(p + r, p.len() + i, st) == scan_args(r, i, st),
    decreases r.len() - i,
{
    let a = p + r;
    let k = p.len() + i;
    if i < r.len() {
        assert(a[k] == r[i]);
        if k + 1 < a.len() {
            assert(a[k + 1] == r[i + 1]);
        }
        let name = option_name(r[i]);
        if is_value_option(name) {
            match option_value(r, i) {
                None => {},
                Some((v, j)) => {
                    match with_value(st, name, v) {
                        Err(_) => {},
                        Ok(st2) => {
                            assert(option_value(a, k) == Some((v, p.len() + j)));
                            if j <= r.len() {
                                lemma_scan_shift(p, r, j, st2);
                            }
                        },
                    }
                },
            }
        } else {
            match with_flag(st, name) {
                Err(_) => {},
                Ok(st2) => {
                    lemma_scan_shift(p, r, i + 1, st2);
                },
            }
        }
    }
}

/// Both spellings of an option's value read the same: `--opt=value`
/// and `--opt value`, whatever follows.
pub proof fn value_spellings_agree(name: Seq<char>, v: Seq<char>, rest: Seq<Seq<char>>, st: ArgsView)
    requires
        is_value_option(name),
    ensures
        scan_args(seq![name + seq!['='] + v] + rest, 0, st) == scan_args(
            seq![name, v] + rest,
            0,
            st,
        ),
{
    lemma_value_option_names(name);
    lemma_lower_equals('=');
    let joined = name + seq!['='] + v;
    assert(joined =~= name + (seq!['='] + v));
    lemma_first_equals_concat(name, seq!['='] + v);
    assert(first_index_of(seq!['='] + v, '=') == 0);
    assert(joined.take(name.len() as int) =~= name);
    assert(joined.skip(name.len() as int + 1) =~= v);
    lemma_first_equals_concat(name, Seq::<char>::empty());
    assert(name + Seq::<char>::empty() =~= name);
    assert(first_index_of(Seq::<char>::empty(), '=') == 0);
    assert(name.take(name.len() as int) =~= name);
    let a1 = seq![joined] + rest;
    let a2 = seq![name, v] + rest;
    assert(a1[0] == joined);
    assert(a2[0] == name && a2[1] == v);
    assert(option_name(a1[0]) == name);
    assert(option_name(a2[0]) == name);
    assert(option_value(a1, 0) == Some((v, 1int)));
    assert(option_value(a2, 0) == Some((v, 2int)));
    match with_value(st, name, v) {
        Err(_) => {},
        Ok(st2) => {
            lemma_scan_shift(seq![joined], rest, 0, st2);
            lemma_scan_shift(seq![name, v], rest, 0, st2);
            assert(seq![joined].len() + 0 == 1);
            assert(seq![name, v].len() + 0 == 2);
        },
    }
}

/// `--naca` names the default foil family and changes no option: a
/// command line that starts with it reads exactly as the rest does, so in
/// particular the CST family stays unselected unless `--cst` is passed.
pub proof fn naca_changes_nothing(rest: Seq<Seq<char>>, st: ArgsView)
    ensures
        scan_args(seq!["--naca"@] + rest, 0, st) == scan_args(rest, 0, st),
{
    reveal_strlit("--naca");
    reveal_strlit("--param");
    reveal_strlit("--n");
    reveal_strlit("--resolution");
    reveal_strlit("--dir");
    reveal_strlit("--step-file");
    reveal_strlit("--ar");
    reveal_strlit("--chord-spline-n");
    reveal_strlit("--camber");
    reveal_strlit("--bem");
    reveal_strlit("--auto");
    let a = seq!["--naca"@] + rest;
    assert(a[0] == "--naca"@);
    lemma_lower_equals('-');
    lemma_first_equals_concat("--naca"@, Seq::<char>::empty());
    assert("--naca"@ + Seq::<char>::empty() =~= "--naca"@);
    assert(first_index_of(Seq::<char>::empty(), '=') == 0);
    assert("--naca"@.take(6) =~= "--naca"@);
    assert(option_name(a[0]) == "--naca"@);
    assert(!is_value_option("--naca"@));
    assert("--naca"@ != "--bem"@) by {
        assert("--naca"@.len() != "--bem"@.len());
    }
    assert("--naca"@ != "--auto"@) by {
        assert("--naca"@[2] != "--auto"@[2]);
    }
    assert(with_flag(st, "--naca"@) == Ok::<ArgsView, Seq<char>>(st));
    lemma_scan_shift(seq!["--naca"@], rest, 0, st);
}

/// `--dir` sets the output directory and nothing else: whatever follows, a
/// command line that starts with `--dir v` reads as the rest does from the
/// same options with only the directory set to `v` (the STEP path in
/// particular stays as it was).
pub proof fn dir_sets_only_the_directory(v: Seq<char>, rest: Seq<Seq<char>>, st: ArgsView)
    ensures
        scan_args(seq!["--dir"@, v] + rest, 0, st) == scan_args(
            rest,
            0,
            ArgsView {
                param: st.param,
                n: st.n,
                bem: st.bem,
                lifting_line: st.lifting_line,
                auto: st.auto,
                resolution: st.resolution,
                dir: Some(v),
                step_file: st.step_file,
                plate: st.plate,
                ar: st.ar,
                chord_spline_n: st.chord_spline_n,
                camber: st.camber,
                cst: st.cst,
                help: st.help,
            },
        ),
{
    reveal_strlit("--dir");
    reveal_strlit("--param");
    reveal_strlit("--n");
    reveal_strlit("--resolution");
    lemma_value_option_names_of_dir();
    let a = seq!["--dir"@, v] + rest;
    assert(a[0] == "--dir"@ && a[1] == v);
    lemma_first_equals_concat("--dir"@, Seq::<char>::empty());
    assert("--dir"@ + Seq::<char>::empty() =~= "--dir"@);
    assert(first_index_of(Seq::<char>::empty(), '=') == 0);
    assert("--dir"@.take(5) =~= "--dir"@);
    assert(option_name(a[0]) == "--dir"@);
    assert(inline_value(a[0]) is None);
    assert(is_value_option("--dir"@));
    assert(option_value(a, 0) == Some((v, 2int)));
    lemma_scan_shift(seq!["--dir"@, v], rest, 0, with_value(st, "--dir"@, v)->Ok_0);
}

proof fn lemma_value_option_names_of_dir()
    ensures
        forall|i: int| 0 <= i < "--dir"@.len() ==> #[trigger] "--dir"@[i] != '=',
{
    reveal_strlit("--dir");
}

/// Each option sets its own field and no other: a flag sets its switch
/// (`--help` and `-h` the help request), `--naca` nothing; a value option
/// sets its field to the value (a count option to the number the value
/// reads as, `--ar` and `--camber` to the literal), and a value that does
/// not read refuses the line.
pub proof fn each_option_sets_only_its_field(st: ArgsView, v: Seq<char>)
    ensures
        with_flag(st, "--bem"@) == Ok::<ArgsView, Seq<char>>(ArgsView { bem: Some(true), ..st }),
        with_flag(st, "--auto"@) == Ok::<ArgsView, Seq<char>>(ArgsView { auto: Some(true), ..st }),
        with_flag(st, "--naca"@) == Ok::<ArgsView, Seq<char>>(st),
        with_flag(st, "--cst"@) == Ok::<ArgsView, Seq<char>>(ArgsView { cst: Some(true), ..st }),
        with_flag(st, "--plate"@) == Ok::<ArgsView, Seq<char>>(ArgsView { plate: Some(true), ..st }),
        with_flag(st, "--lifting-line"@) == Ok::<ArgsView, Seq<char>>(
            ArgsView { lifting_line: Some(true), ..st },
        ),
        with_flag(st, "--help"@) == Ok::<ArgsView, Seq<char>>(ArgsView { help: true, ..st }),
        with_flag(st, "-h"@) == Ok::<ArgsView, Seq<char>>(ArgsView { help: true, ..st }),
        with_value(st, "--param"@, v) == Ok::<ArgsView, Seq<char>>(ArgsView { param: v, ..st }),
        with_value(st, "--dir"@, v) == Ok::<ArgsView, Seq<char>>(ArgsView { dir: Some(v), ..st }),
        with_value(st, "--step-file"@, v) == Ok::<ArgsView, Seq<char>>(
            ArgsView { step_file: Some(v), ..st },
        ),
        with_value(st, "--n"@, v) == match parse_usize_spec(v) {
            Some(x) => Ok::<ArgsView, Seq<char>>(ArgsView { n: Some(x), ..st }),
            None => Err("bad --n"@),
        },
        with_value(st, "--resolution"@, v) == match parse_usize_spec(v) {
            Some(x) => Ok::<ArgsView, Seq<char>>(ArgsView { resolution: Some(x), ..st }),
            None => Err("bad --resolution"@),
        },
        with_value(st, "--chord-spline-n"@, v) == match parse_usize_spec(v) {
            Some(x) => Ok::<ArgsView, Seq<char>>(ArgsView { chord_spline_n: Some(x), ..st }),
            None => Err("bad --chord-spline-n"@),
        },
        with_value(st, "--ar"@, v) == if is_float_literal(v) {
            Ok::<ArgsView, Seq<char>>(ArgsView { ar: Some(v), ..st })
        } else {
            Err("bad --ar"@)
        },
        with_value(st, "--camber"@, v) == if is_float_literal(v) {
            Ok::<ArgsView, Seq<char>>(ArgsView { camber: Some(v), ..st })
        } else {
            Err("bad --camber"@)
        },
{
    reveal_strlit("--bem");
    reveal_strlit("--auto");
    reveal_strlit("--naca");
    reveal_strlit("--cst");
    reveal_strlit("--plate");
    reveal_strlit("--lifting-line");
    reveal_strlit("--help");
    reveal_strlit("-h");
    reveal_strlit("--param");
    reveal_strlit("--n");
    reveal_strlit("--resolution");
    reveal_strlit("--dir");
    reveal_strlit("--step-file");
    reveal_strlit("--ar");
    reveal_strlit("--chord-spline-n");
    reveal_strlit("--camber");
    assert("--naca"@[2] != "--auto"@[2]);
    assert("--param"@[3] != "--plate"@[3]);
    assert("--help"@[2] != "--auto"@[2]);
    assert("--help"@[2] != "--naca"@[2]);
    assert("--cst"@[2] != "--bem"@[2]);
    assert("--dir"@[2] != "--bem"@[2]);
    assert("--step-file"@[2] != "--resolution"@[2]);
    assert("--ar"@[2] != "--dir"@[2]);
    assert("--camber"@[2] != "--param"@[2]);
    assert("--camber"@[3] != "--chord-spline-n"@[3]);
    assert("--chord-spline-n"@.len() != "--camber"@.len());
    assert("-h"@.len() == 2);
    assert("-h"@ != "--bem"@ && "-h"@ != "--auto"@ && "-h"@ != "--naca"@ && "-h"@ != "--cst"@);
    assert("-h"@ != "--plate"@ && "-h"@ != "--lifting-line"@ && "-h"@ != "--help"@);
}

} // verus!
