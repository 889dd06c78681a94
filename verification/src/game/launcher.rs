//! How the game is started: which executable, with which arguments, and
//! through which command on Linux. Starting the process is the caller's part.

use crate::config::launcher_config::{
    LauncherConfig, DEFAULT_SHADOW_MAP_SIZE,
};
use crate::text::{
    chars_of, find_ws, has_prefix, is_whitespace, is_whitespace_char, lemma_find_ws_is,
    lemma_leading_ws_is, starts_with, string_of, string_of_range, sub_chars, trim, trim_chars,
    trim_start,
};
use vstd::prelude::*;
use vstd::string::StringExecFns;

verus! {

/// The file name of the game's executable.
pub open spec fn executable_name(use_avx: bool) -> Seq<char> {
    if use_avx {
        "OldWorldDX11AVX.exe"@
    } else {
        "OldWorldDX11.exe"@
    }
}

/// The character of a decimal digit.
pub open spec fn digit_char(d: nat) -> char {
    if d == 0 {
        '0'
    } else if d == 1 {
        '1'
    } else if d == 2 {
        '2'
    } else if d == 3 {
        '3'
    } else if d == 4 {
        '4'
    } else if d == 5 {
        '5'
    } else if d == 6 {
        '6'
    } else if d == 7 {
        '7'
    } else if d == 8 {
        '8'
    } else {
        '9'
    }
}

/// The decimal digits of `n`, without leading zeros.
pub open spec fn digits(n: nat) -> Seq<char>
    decreases n,
{
    if n < 10 {
        seq![digit_char(n)]
    } else {
        digits(n / 10).push(digit_char(n % 10))
    }
}

/// The words of `s`: its longest runs of characters other than whitespace.
pub open spec fn words(s: Seq<char>) -> Seq<Seq<char>>
    decreases s.len(),
{
    let t = trim_start(s);
    if t.len() == 0 || t.len() > s.len() {
        Seq::empty()
    } else {
        let n = find_ws(t) as int;
        if 0 < n <= t.len() {
            seq![t.take(n)] + words(t.skip(n))
        } else {
            Seq::empty()
        }
    }
}

/// The argument that sets the shadow map size.
pub open spec fn shadow_map_argument(size: nat) -> Seq<char> {
    seq!['-', 's', 'm', 'a', 'p'] + digits(size)
}

/// The argument that switches debug mode on.
pub open spec fn debug_argument() -> Seq<char> {
    seq!['-', 'd', 'b', 'g']
}

/// The arguments that the game is started with: the shadow map size
/// unless it is the default, the debug switch if debug mode is on, and the
/// words of the custom arguments.
pub open spec fn launch_arguments(
    shadow_map_size: u32,
    debug_mode: bool,
    custom_args: Seq<char>,
) -> Seq<Seq<char>> {
    (if shadow_map_size != DEFAULT_SHADOW_MAP_SIZE {
        seq![shadow_map_argument(shadow_map_size as nat)]
    } else {
        Seq::empty()
    }) + (if debug_mode {
        seq![debug_argument()]
    } else {
        Seq::empty()
    }) + words(custom_args)
}

/// `s` with every occurrence of the non-empty `pattern` replaced by `to`,
/// found from left to right without overlap.
pub open spec fn replace(s: Seq<char>, pattern: Seq<char>, to: Seq<char>) -> Seq<char>
    decreases s.len(),
{
    if pattern.len() == 0 || s.len() == 0 {
        s
    } else if starts_with(s, pattern) {
        to + replace(s.skip(pattern.len() as int), pattern, to)
    } else {
        seq![s[0]] + replace(s.drop_first(), pattern, to)
    }
}

/// The texts joined with one space between them.
pub open spec fn join_spaced(parts: Seq<Seq<char>>) -> Seq<char>
    decreases parts.len(),
{
    if parts.len() == 0 {
        Seq::empty()
    } else if parts.len() == 1 {
        parts[0]
    } else {
        join_spaced(parts.drop_last()) + seq![' '] + parts.last()
    }
}

/// The placeholder for the executable's path in a custom command.
pub open spec fn exe_placeholder() -> Seq<char> {
    seq!['{', 'e', 'x', 'e', '}']
}

/// The placeholder for the arguments in a custom command.
pub open spec fn args_placeholder() -> Seq<char> {
    seq!['{', 'a', 'r', 'g', 's', '}']
}

/// The shell command that starts the game on Linux: the custom command
/// with the path of the executable and then the arguments filled in.
/// `None` where no custom command is set or it is blank.
pub open spec fn linux_command(
    custom: Option<Seq<char>>,
    exe: Seq<char>,
    args: Seq<Seq<char>>,
) -> Option<Seq<char>> {
    match custom {
        Some(c) => if trim(c).len() == 0 {
            None
        } else {
            Some(replace(replace(c, exe_placeholder(), exe), args_placeholder(), join_spaced(args)))
        },
        None => None,
    }
}

/// The views of a list of strings.
pub open spec fn string_views(v: Seq<String>) -> Seq<Seq<char>> {
    v.map_values(|s: String| s@)
}

/// The file name of the game's executable for `config`.
pub fn exe_name(config: &LauncherConfig) -> (r: &'static str)
    ensures
        r@ == executable_name(config.use_avx),
{
    if config.use_avx {
        "OldWorldDX11AVX.exe"
    } else {
        "OldWorldDX11.exe"
    }
}

fn digit_of(d: u32) -> (c: char)
    requires
        d < 10,
    ensures
        c == digit_char(d as nat),
{
    if d == 0 {
        '0'
    } else if d == 1 {
        '1'
    } else if d == 2 {
        '2'
    } else if d == 3 {
        '3'
    } else if d == 4 {
        '4'
    } else if d == 5 {
        '5'
    } else if d == 6 {
        '6'
    } else if d == 7 {
        '7'
    } else if d == 8 {
        '8'
    } else {
        '9'
    }
}

/// Appends the decimal digits of `n` to `out`.
fn push_digits(out: &mut String, n: u32)
    ensures
        final(out)@ == old(out)@ + digits(n as nat),
    decreases n,
{
    if n < 10 {
        out.push(digit_of(n));
        assert(out@ == old(out)@ + seq![digit_char(n as nat)]);
    } else {
        push_digits(out, n / 10);
        out.push(digit_of(n % 10));
        assert(out@ == old(out)@ + digits((n / 10) as nat).push(digit_char((n % 10) as nat)));
    }
}

/// The words of `text`, each as a string.
pub fn split_words(text: &str) -> (r: Vec<String>)
    ensures
        string_views(r@) == words(text@),
{
    let v = chars_of(text);
    let mut r: Vec<String> = Vec::new();
    let mut i: usize = 0;
    assert(v@.skip(0) == v@);
    assert(string_views(r@) == Seq::<Seq<char>>::empty());
    while i < v.len()
        invariant
            i <= v.len(),
            words(v@) == string_views(r@) + words(v@.skip(i as int)),
        decreases v.len() - i,
    {
        let ghost rest = v@.skip(i as int);
        let mut a: usize = i;
        while a < v.len() && is_whitespace_char(v[a])
            invariant
                i <= a <= v.len(),
                rest == v@.skip(i as int),
                forall|k: int| 0 <= k < a - i ==> is_whitespace(rest[k]),
            decreases v.len() - a,
        {
            a += 1;
        }
        proof {
            lemma_leading_ws_is(rest, a - i);
        }
        let ghost t = trim_start(rest);
        assert(t == v@.skip(a as int));
        let mut b: usize = a;
        while b < v.len() && !is_whitespace_char(v[b])
            invariant
                a <= b <= v.len(),
                t == v@.skip(a as int),
                forall|k: int| 0 <= k < b - a ==> !is_whitespace(t[k]),
            decreases v.len() - b,
        {
            b += 1;
        }
        proof {
            lemma_find_ws_is(t, b - a);
        }
        if a < v.len() {
            let ghost before = r@;
            let word = string_of_range(&v, a, b);
            assert(word@ == t.take(b - a));
            r.push(word);
            assert(string_views(r@) == string_views(before).push(t.take(b - a)));
            assert(t.skip(b - a) == v@.skip(b as int));
            assert(words(rest) == seq![t.take(b - a)] + words(t.skip(b - a)));
        } else {
            assert(words(rest) == Seq::<Seq<char>>::empty());
            assert(words(v@.skip(b as int)) == Seq::<Seq<char>>::empty());
        }
        i = b;
    }
    assert(words(v@.skip(i as int)) == Seq::<Seq<char>>::empty());
    r
}

/// The arguments that the game is started with for `config`.
pub fn launch_args(config: &LauncherConfig) -> (r: Vec<String>)
    ensures
        string_views(r@) == launch_arguments(
            config.shadow_map_size,
            config.debug_mode,
            config.custom_args@,
        ),
{
    let mut args: Vec<String> = Vec::new();
    assert(string_views(args@) == Seq::<Seq<char>>::empty());
    if config.shadow_map_size != DEFAULT_SHADOW_MAP_SIZE {
        let mut a = String::new();
        a.push('-');
        a.push('s');
        a.push('m');
        a.push('a');
        a.push('p');
        assert(a@ == seq!['-', 's', 'm', 'a', 'p']);
        push_digits(&mut a, config.shadow_map_size);
        args.push(a);
        assert(string_views(args@) == seq![shadow_map_argument(config.shadow_map_size as nat)]);
    }
    if config.debug_mode {
        let ghost before = args@;
        let mut a = String::new();
        a.push('-');
        a.push('d');
        a.push('b');
        a.push('g');
        assert(a@ == debug_argument());
        args.push(a);
        assert(string_views(args@) == string_views(before) + seq![debug_argument()]);
    }
    let ghost head = string_views(args@);
    let custom = split_words(config.custom_args.as_str());
    let mut i: usize = 0;
    assert(string_views(custom@).take(0) == Seq::<Seq<char>>::empty());
    while i < custom.len()
        invariant
            i <= custom.len(),
            string_views(args@) == head + string_views(custom@).take(i as int),
        decreases custom.len() - i,
    {
        let ghost before = args@;
        args.push(custom[i].clone());
        assert(string_views(args@) == string_views(before).push(custom@[i as int]@));
        assert(string_views(custom@).take(i as int + 1) == string_views(custom@).take(
            i as int,
        ).push(custom@[i as int]@));
        i += 1;
    }
    assert(string_views(custom@).take(custom.len() as int) == string_views(custom@));
    args
}

/// `s` with every occurrence of the non-empty `pattern` replaced by `to`.
fn replace_all(s: &Vec<char>, pattern: &Vec<char>, to: &Vec<char>) -> (r: Vec<char>)
    requires
        pattern.len() > 0,
    ensures
        r@ == replace(s@, pattern@, to@),
{
    let mut r: Vec<char> = Vec::new();
    let mut i: usize = 0;
    assert(s@.skip(0) == s@);
    while i < s.len()
        invariant
            i <= s.len(),
            pattern.len() > 0,
            replace(s@, pattern@, to@) == r@ + replace(s@.skip(i as int), pattern@, to@),
        decreases s.len() - i,
    {
        let ghost rest = s@.skip(i as int);
        let here = sub_chars(s, i, s.len());
        assert(here@ == rest);
        if has_prefix(&here, pattern) {
            let ghost before = r@;
            let mut k: usize = 0;
            while k < to.len()
                invariant
                    k <= to.len(),
                    r@ == before + to@.take(k as int),
                decreases to.len() - k,
            {
                r.push(to[k]);
                k += 1;
            }
            assert(to@.take(to.len() as int) == to@);
            assert(rest.skip(pattern.len() as int) == s@.skip(i + pattern.len()));
            i = i + pattern.len();
        } else {
            r.push(s[i]);
            assert(rest.drop_first() == s@.skip(i + 1));
            assert(rest[0] == s@[i as int]);
            i += 1;
        }
    }
    assert(r@ + Seq::<char>::empty() == r@);
    r
}

/// The texts of `parts` joined with one space between them.
fn join_args(parts: &Vec<String>) -> (r: Vec<char>)
    ensures
        r@ == join_spaced(string_views(parts@)),
{
    let mut r: Vec<char> = Vec::new();
    let mut i: usize = 0;
    let ghost all = string_views(parts@);
    assert(all.take(0) == Seq::<Seq<char>>::empty());
    while i < parts.len()
        invariant
            i <= parts.len(),
            all == string_views(parts@),
            r@ == join_spaced(all.take(i as int)),
        decreases parts.len() - i,
    {
        let ghost before = r@;
        if i > 0 {
            r.push(' ');
        }
        let part = chars_of(parts[i].as_str());
        let mut k: usize = 0;
        let ghost mid = r@;
        while k < part.len()
            invariant
                k <= part.len(),
                r@ == mid + part@.take(k as int),
            decreases part.len() - k,
        {
            r.push(part[k]);
            k += 1;
        }
        proof {
            assert(part@.take(part.len() as int) == part@);
            assert(all.take(i as int + 1).drop_last() == all.take(i as int));
            assert(all.take(i as int + 1).last() == part@);
            if i == 0 {
                assert(r@ == part@);
                assert(all.take(1)[0] == part@);
            }
        }
        i += 1;
    }
    assert(all.take(parts.len() as int) == all);
    r
}

/// The shell command that starts the game on Linux for `config`, the
/// executable at the path `exe` and the arguments `args`. `None` where no
/// custom command is set or it is blank: the executable is then started
/// directly.
pub fn custom_command(config: &LauncherConfig, exe: &str, args: &Vec<String>) -> (r: Option<
    String,
>)
    ensures
        r is Some == linux_command(
            match config.linux_custom_command {
                Some(c) => Some(c@),
                None => None,
            },
            exe@,
            string_views(args@),
        ) is Some,
        r matches Some(cmd) ==> linux_command(
            match config.linux_custom_command {
                Some(c) => Some(c@),
                None => None,
            },
            exe@,
            string_views(args@),
        ) == Some(cmd@),
{
    match &config.linux_custom_command {
        Some(c) => {
            let custom = chars_of(c.as_str());
            if trim_chars(&custom).len() == 0 {
                return None;
            }
            let exe_mark = vec!['{', 'e', 'x', 'e', '}'];
            let args_mark = vec!['{', 'a', 'r', 'g', 's', '}'];
            assert(exe_mark@ =~= exe_placeholder());
            assert(args_mark@ =~= args_placeholder());
            let with_exe = replace_all(&custom, &exe_mark, &chars_of(exe));
            let full = replace_all(&with_exe, &args_mark, &join_args(args));
            Some(string_of(&full))
        },
        None => None,
    }
}

/// How the game is to be started.
pub enum LaunchPlan {
    /// Through the shell, with this command.
    Shell(String),
    /// By running the executable itself with these arguments.
    Direct(Vec<String>),
}

/// How the game is started for `config` and the executable at the path
/// `exe`: on Linux through the custom command if one is set and not
/// blank, else directly, with the arguments that the settings ask for.
pub fn launch_plan(config: &LauncherConfig, exe: &str, linux: bool) -> (r: LaunchPlan)
    ensures
        match r {
            LaunchPlan::Shell(command) => {
                &&& linux
                &&& linux_command(
                    match config.linux_custom_command {
                        Some(c) => Some(c@),
                        None => None,
                    },
                    exe@,
                    launch_arguments(
                        config.shadow_map_size,
                        config.debug_mode,
                        config.custom_args@,
                    ),
                ) == Some(command@)
            },
            LaunchPlan::Direct(args) => {
                &&& string_views(args@) == launch_arguments(
                    config.shadow_map_size,
                    config.debug_mode,
                    config.custom_args@,
                )
                &&& linux ==> linux_command(
                    match config.linux_custom_command {
                        Some(c) => Some(c@),
                        None => None,
                    },
                    exe@,
                    string_views(args@),
                ) is None
            },
        },
{
    let args = launch_args(config);
    if linux {
        match custom_command(config, exe, &args) {
            Some(command) => LaunchPlan::Shell(command),
            None => LaunchPlan::Direct(args),
        }
    } else {
        LaunchPlan::Direct(args)
    }
}

} // verus!
