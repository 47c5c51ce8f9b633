//! Start-up decisions: command-line options, the ports tried, and the font
//! folders scanned on each platform (in scan order, which decides which
//! copy of a duplicated face is kept).

use vstd::prelude::*;
use crate::face::Source;
use crate::catalog::same_chars;
use crate::text::{chars_of, string_of};

verus! {

/// Whether `c` is an ASCII decimal digit.
pub open spec fn is_digit(c: char) -> bool {
    '0' <= c <= '9'
}

/// The value of a string of decimal digits.
pub open spec fn digits_value(d: Seq<char>) -> nat
    decreases d.len(),
{
    if d.len() == 0 {
        0
    } else {
        digits_value(d.drop_last()) * 10 + (d.last() as nat - 48) as nat
    }
}

/// The text after an optional leading `+`.
pub open spec fn digits_part(s: Seq<char>) -> Seq<char> {
    if s.len() > 0 && s[0] == '+' {
        s.skip(1)
    } else {
        s
    }
}

/// Whether every character is an ASCII digit.
pub open spec fn all_digits(d: Seq<char>) -> bool {
    forall|i: int| 0 <= i < d.len() ==> is_digit(#[trigger] d[i])
}

/// `str::parse::<u16>`: an optional `+`, then one or more ASCII digits
/// whose value is at most 65535.
pub open spec fn parse_u16_spec(s: Seq<char>) -> Option<u16> {
    let d = digits_part(s);
    if d.len() == 0 || !all_digits(d) {
        None
    } else if digits_value(d) > 65535 {
        None
    } else {
        Some(digits_value(d) as u16)
    }
}

/// Parses a port number, as `parse_u16_spec` says.
pub fn parse_u16(s: &str) -> (r: Option<u16>)
    ensures
        r == parse_u16_spec(s@),
{
    let cs = chars_of(s);
    let start: usize = if cs.len() > 0 && cs[0] == '+' {
        1
    } else {
        0
    };
    let ghost d = digits_part(s@);
    assert(d =~= cs@.skip(start as int));
    if start == cs.len() {
        return None;
    }
    let mut acc: u32 = 0;
    let mut big = false;
    let mut i = start;
    while i < cs.len()
        invariant
            start <= i <= cs@.len(),
            cs@ == s@,
            d == digits_part(s@),
            d == cs@.skip(start as int),
            forall|k: int| start <= k < i ==> is_digit(#[trigger] cs@[k]),
            !big ==> acc == digits_value(cs@.subrange(start as int, i as int)),
            !big ==> acc <= 65535,
            big ==> digits_value(cs@.subrange(start as int, i as int)) > 65535,
        decreases cs@.len() - i,
    {
        let c = cs[i];
        if !('0' <= c && c <= '9') {
            proof {
                assert(d[i - start] == c);
                assert(!is_digit(d[i - start]));
                assert(d.len() > 0);
                assert(!all_digits(d));
            }
            return None;
        }
        let ghost pre = cs@.subrange(start as int, i as int);
        assert(cs@.subrange(start as int, i + 1).drop_last() =~= pre);
        if !big {
            let v = acc * 10 + ((c as u32) - 48);
            if v > 65535 {
                big = true;
            } else {
                acc = v;
            }
        }
        i = i + 1;
    }
    assert(cs@.subrange(start as int, cs@.len() as int) =~= d);
    assert forall|k: int| 0 <= k < d.len() implies is_digit(#[trigger] d[k]) by {
        assert(d[k] == cs@[start + k]);
    }
    assert(all_digits(d));
    if big {
        None
    } else {
        Some(acc as u16)
    }
}

/// The first position holding `w`.
pub open spec fn first_index_of(args: Seq<Seq<char>>, w: Seq<char>) -> Option<int>
    decreases args.len(),
{
    if args.len() == 0 {
        None
    } else if args[0] == w {
        Some(0)
    } else {
        match first_index_of(args.drop_first(), w) {
            Some(i) => Some(i + 1),
            None => None,
        }
    }
}

/// Options given on the command line.
pub struct Options {
    /// `--once`: print the font list and exit.
    pub once: bool,
    /// `--port N`: the only port to listen on.
    pub port: Option<u16>,
}

/// Options from the argument list (`args[0]` included): `--once` anywhere;
/// the port after the first `--port`, when it parses as a `u16`.
pub open spec fn options_spec(args: Seq<Seq<char>>) -> (bool, Option<u16>) {
    let once = exists|i: int| 0 <= i < args.len() && args[i] == "--once"@;
    let port = match first_index_of(args, "--port"@) {
        Some(i) => if i + 1 < args.len() {
            parse_u16_spec(args[i + 1])
        } else {
            None
        },
        None => None,
    };
    (once, port)
}

/// Views of the arguments.
pub open spec fn args_view(v: Seq<String>) -> Seq<Seq<char>> {
    Seq::new(v.len(), |i: int| v[i]@)
}

proof fn lemma_first_index(args: Seq<Seq<char>>, w: Seq<char>, k: int)
    requires
        0 <= k <= args.len(),
        forall|j: int| 0 <= j < k ==> args[j] != w,
    ensures
        k < args.len() && args[k] == w ==> first_index_of(args, w) == Some(k),
        k == args.len() ==> first_index_of(args, w) is None,
    decreases args.len(),
{
    if args.len() > 0 && k > 0 {
        assert forall|j: int| 0 <= j < k - 1 implies args.drop_first()[j] != w by {
            assert(args.drop_first()[j] == args[j + 1]);
        }
        lemma_first_index(args.drop_first(), w, k - 1);
        if k < args.len() {
            assert(args.drop_first()[k - 1] == args[k]);
        }
    }
}

/// Reads the command-line options, as `options_spec` says.
pub fn parse_args(args: &Vec<String>) -> (r: Options)
    ensures
        (r.once, r.port) == options_spec(args_view(args@)),
{
    let ghost av = args_view(args@);
    let once_w = chars_of("--once");
    let port_w = chars_of("--port");
    let mut once = false;
    let mut port_at: Option<usize> = None;
    let mut i: usize = 0;
    while i < args.len()
        invariant
            i <= args@.len(),
            av == args_view(args@),
            once_w@ == "--once"@,
            port_w@ == "--port"@,
            once == exists|j: int| 0 <= j < i && av[j] == "--once"@,
            port_at is None ==> forall|j: int| 0 <= j < i ==> av[j] != "--port"@,
            port_at matches Some(p) ==> p < i && first_index_of(av, "--port"@) == Some(p as int),
        decreases args@.len() - i,
    {
        let a = chars_of(args[i].as_str());
        assert(a@ == av[i as int]);
        if same_chars(a.as_slice(), once_w.as_slice()) {
            once = true;
        }
        if port_at.is_none() && same_chars(a.as_slice(), port_w.as_slice()) {
            proof {
                lemma_first_index(av, "--port"@, i as int);
            }
            port_at = Some(i);
        }
        i = i + 1;
    }
    proof {
        if port_at is None {
            lemma_first_index(av, "--port"@, av.len() as int);
        }
    }
    let port = match port_at {
        Some(p) => if p + 1 < args.len() {
            parse_u16(args[p + 1].as_str())
        } else {
            None
        },
        None => None,
    };
    Options { once, port }
}

/// The ports tried, in order: the one given, else 57731 to 57740.
pub open spec fn ports_spec(preferred: Option<u16>) -> Seq<u16> {
    match preferred {
        Some(p) => seq![p],
        None => Seq::new(10, |i: int| (57731 + i) as u16),
    }
}

/// The ports tried, as `ports_spec` says.
pub fn port_candidates(preferred: Option<u16>) -> (r: Vec<u16>)
    ensures
        r@ == ports_spec(preferred),
{
    let mut v: Vec<u16> = Vec::new();
    match preferred {
        Some(p) => {
            v.push(p);
        },
        None => {
            let mut p: u16 = 57731;
            while p <= 57740
                invariant
                    57731 <= p <= 57741,
                    v@ == Seq::new((p - 57731) as nat, |i: int| (57731 + i) as u16),
                decreases 57741 - p,
            {
                v.push(p);
                p = p + 1;
                assert(v@ =~= Seq::new((p - 57731) as nat, |i: int| (57731 + i) as u16));
            }
        },
    }
    assert(v@ =~= ports_spec(preferred));
    v
}

/// The platform the helper runs on.
#[derive(Clone, Copy, Debug, PartialEq, Eq, Structural)]
pub enum Platform {
    MacOs,
    Windows,
    Other,
}

/// What a font folder's path is relative to.
#[derive(Clone, Copy, Debug, PartialEq, Eq, Structural)]
pub enum RootBase {
    /// An absolute path.
    Fixed,
    /// The user's home folder.
    Home,
    /// The Windows folder.
    WinDir,
    /// `%LOCALAPPDATA%`.
    LocalAppData,
    /// `%APPDATA%`.
    AppData,
}

/// One font folder to scan: its base, the path below it, and the source
/// label of the fonts found there.
pub struct RootPlan {
    pub base: RootBase,
    pub rel: &'static str,
    pub source: Source,
}

/// The spec view of a folder plan.
pub open spec fn plan_view(v: Seq<RootPlan>) -> Seq<(RootBase, Seq<char>, Source)> {
    Seq::new(v.len(), |i: int| (v[i].base, v[i].rel@, v[i].source))
}

/// The font folders of a platform, in scan order: system folders first,
/// then the user's, then Adobe's activation folder.  Folders below the
/// home folder (or below `%LOCALAPPDATA%` / `%APPDATA%` on Windows) are
/// listed only when that base is known.
pub open spec fn root_plan_spec(platform: Platform, home: bool, local: bool, roaming: bool) -> Seq<
    (RootBase, Seq<char>, Source),
> {
    match platform {
        Platform::MacOs => {
            let fixed = seq![
                (RootBase::Fixed, "/System/Library/Fonts"@, Source::System),
                (RootBase::Fixed, "/Library/Fonts"@, Source::System),
            ];
            if home {
                fixed + seq![
                    (RootBase::Home, "Library/Fonts"@, Source::User),
                    (
                        RootBase::Home,
                        "Library/Application Support/Adobe/CoreSync/plugins/livetype/.r"@,
                        Source::Adobe,
                    ),
                ]
            } else {
                fixed
            }
        },
        Platform::Windows => {
            let a = seq![(RootBase::WinDir, "Fonts"@, Source::System)];
            let b = if local {
                a.push((RootBase::LocalAppData, "Microsoft\\Windows\\Fonts"@, Source::User))
            } else {
                a
            };
            if roaming {
                b.push((RootBase::AppData, "Adobe\\CoreSync\\plugins\\livetype\\r"@, Source::Adobe))
            } else {
                b
            }
        },
        Platform::Other => {
            let fixed = seq![
                (RootBase::Fixed, "/usr/share/fonts"@, Source::System),
                (RootBase::Fixed, "/usr/local/share/fonts"@, Source::System),
            ];
            if home {
                fixed + seq![
                    (RootBase::Home, ".fonts"@, Source::User),
                    (RootBase::Home, ".local/share/fonts"@, Source::User),
                    (RootBase::Home, ".config/Adobe/CoreSync/plugins/livetype/.r"@, Source::Adobe),
                ]
            } else {
                fixed
            }
        },
    }
}

fn plan(base: RootBase, rel: &'static str, source: Source) -> (r: RootPlan)
    ensures
        r.base == base,
        r.rel@ == rel@,
        r.source == source,
{
    RootPlan { base, rel, source }
}

/// The font folders to scan, as `root_plan_spec` says.
pub fn root_plan(platform: Platform, home: bool, local: bool, roaming: bool) -> (r: Vec<RootPlan>)
    ensures
        plan_view(r@) == root_plan_spec(platform, home, local, roaming),
{
    let mut v: Vec<RootPlan> = Vec::new();
    match platform {
        Platform::MacOs => {
            v.push(plan(RootBase::Fixed, "/System/Library/Fonts", Source::System));
            v.push(plan(RootBase::Fixed, "/Library/Fonts", Source::System));
            if home {
                v.push(plan(RootBase::Home, "Library/Fonts", Source::User));
                v.push(
                    plan(
                        RootBase::Home,
                        "Library/Application Support/Adobe/CoreSync/plugins/livetype/.r",
                        Source::Adobe,
                    ),
                );
            }
        },
        Platform::Windows => {
            v.push(plan(RootBase::WinDir, "Fonts", Source::System));
            if local {
                v.push(plan(RootBase::LocalAppData, "Microsoft\\Windows\\Fonts", Source::User));
            }
            if roaming {
                v.push(plan(RootBase::AppData, "Adobe\\CoreSync\\plugins\\livetype\\r", Source::Adobe));
            }
        },
        Platform::Other => {
            v.push(plan(RootBase::Fixed, "/usr/share/fonts", Source::System));
            v.push(plan(RootBase::Fixed, "/usr/local/share/fonts", Source::System));
            if home {
                v.push(plan(RootBase::Home, ".fonts", Source::User));
                v.push(plan(RootBase::Home, ".local/share/fonts", Source::User));
                v.push(plan(RootBase::Home, ".config/Adobe/CoreSync/plugins/livetype/.r", Source::Adobe));
            }
        },
    }
    assert(plan_view(v@) =~= root_plan_spec(platform, home, local, roaming));
    v
}

/// The Windows folder: `%WINDIR%` when set, else `C:\\Windows`.
pub fn windows_dir(windir: Option<String>) -> (r: String)
    ensures
        r@ == match windir {
            Some(w) => w@,
            None => "C:\\Windows"@,
        },
{
    match windir {
        Some(w) => w,
        None => string_of(chars_of("C:\\Windows").as_slice()),
    }
}

/// Accepts any reader and does nothing with it.
pub fn _read_exact_unused<R: std::io::Read>(_r: R) {
}

/// The folders of every platform come in scan order by source: system
/// folders first (there is always one), then the user's, then Adobe's.
/// User folders are planned exactly when their base is known (the home
/// folder, or `%LOCALAPPDATA%` on Windows) and lie below it; Adobe's folder
/// likewise (the home folder, or `%APPDATA%` on Windows).
pub proof fn lemma_plan_order(platform: Platform, home: bool, local: bool, roaming: bool)
    ensures
        ({
            let p = root_plan_spec(platform, home, local, roaming);
            let user_base = if platform == Platform::Windows {
                RootBase::LocalAppData
            } else {
                RootBase::Home
            };
            let adobe_base = if platform == Platform::Windows {
                RootBase::AppData
            } else {
                RootBase::Home
            };
            &&& p.len() > 0 && p[0].2 == Source::System
            &&& forall|i: int, j: int|
                #![trigger p[i], p[j]]
                0 <= i < j < p.len() ==> (p[i].2 == Source::User ==> p[j].2 != Source::System) && (
                p[i].2 == Source::Adobe ==> p[j].2 == Source::Adobe)
            &&& (exists|i: int| 0 <= i < p.len() && #[trigger] p[i].2 == Source::User) <==> (if platform
                == Platform::Windows {
                local
            } else {
                home
            })
            &&& (exists|i: int| 0 <= i < p.len() && #[trigger] p[i].2 == Source::Adobe) <==> (if platform
                == Platform::Windows {
                roaming
            } else {
                home
            })
            &&& forall|i: int| 0 <= i < p.len() && #[trigger] p[i].2 == Source::User ==> p[i].0 == user_base
            &&& forall|i: int| 0 <= i < p.len() && #[trigger] p[i].2 == Source::Adobe ==> p[i].0 == adobe_base
        }),
{
    let p = root_plan_spec(platform, home, local, roaming);
    if platform == Platform::Windows {
        if local {
            assert(p[1].2 == Source::User);
        }
        if roaming {
            assert(p[p.len() - 1].2 == Source::Adobe);
        }
    } else if home {
        assert(p[2].2 == Source::User);
        assert(p[p.len() - 1].2 == Source::Adobe);
    }
}

/// The Windows plan: the Windows font folder; then, when `%LOCALAPPDATA%` is
/// known, the per-user font folder below it; then, when `%APPDATA%` is
/// known, Adobe's activation folder below it.
pub proof fn lemma_windows_plan(home: bool, local: bool, roaming: bool)
    ensures
        ({
            let p = root_plan_spec(Platform::Windows, home, local, roaming);
            &&& p.len() == 1 + (if local {
                1int
            } else {
                0int
            }) + (if roaming {
                1int
            } else {
                0int
            })
            &&& p[0] == (RootBase::WinDir, "Fonts"@, Source::System)
            &&& local ==> p[1] == (RootBase::LocalAppData, "Microsoft\\Windows\\Fonts"@, Source::User)
            &&& roaming ==> p[p.len() - 1] == (
                RootBase::AppData,
                "Adobe\\CoreSync\\plugins\\livetype\\r"@,
                Source::Adobe,
            )
        }),
{
}

/// The macOS plan: the two system font folders; then, when the home folder
/// is known, the user's font folder and Adobe's activation folder below it.
pub proof fn lemma_macos_plan(home: bool, local: bool, roaming: bool)
    ensures
        ({
            let p = root_plan_spec(Platform::MacOs, home, local, roaming);
            &&& p.len() == if home {
                4int
            } else {
                2int
            }
            &&& p[0] == (RootBase::Fixed, "/System/Library/Fonts"@, Source::System)
            &&& p[1] == (RootBase::Fixed, "/Library/Fonts"@, Source::System)
            &&& home ==> p[2] == (RootBase::Home, "Library/Fonts"@, Source::User)
            &&& home ==> p[3] == (
                RootBase::Home,
                "Library/Application Support/Adobe/CoreSync/plugins/livetype/.r"@,
                Source::Adobe,
            )
        }),
{
}

/// The plan elsewhere: the two system font folders; then, when the home
/// folder is known, the two user font folders and Adobe's activation
/// folder below it.
pub proof fn lemma_other_plan(home: bool, local: bool, roaming: bool)
    ensures
        ({
            let p = root_plan_spec(Platform::Other, home, local, roaming);
            &&& p.len() == if home {
                5int
            } else {
                2int
            }
            &&& p[0] == (RootBase::Fixed, "/usr/share/fonts"@, Source::System)
            &&& p[1] == (RootBase::Fixed, "/usr/local/share/fonts"@, Source::System)
            &&& home ==> p[2] == (RootBase::Home, ".fonts"@, Source::User)
            &&& home ==> p[3] == (RootBase::Home, ".local/share/fonts"@, Source::User)
            &&& home ==> p[4] == (
                RootBase::Home,
                ".config/Adobe/CoreSync/plugins/livetype/.r"@,
                Source::Adobe,
            )
        }),
{
}

} // verus!
