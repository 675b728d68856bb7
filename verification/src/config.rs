//! The configuration: permissions, mount options and rules.
use crate::error::Error;
use crate::ioctl;
use crate::pathmap::PathMap;
use crate::text::{
    begins, chars_of, decimal, join, join_path, joined, law_decimal_injective, same, separated,
    skip_chars, starts_with, string_of, string_views, to_decimal,
};
use vstd::prelude::*;
use vstd::string::StringExecFns;

verus! {

/// What a rule allows.
#[derive(Debug, Clone, Copy, PartialEq, Eq, Structural)]
pub enum Perm {
    Ask,
    Allow,
    AllowRw,
    AllowRo,
    AllowRx,
    Deny,
}

/// The number that the kernel module knows a permission by.
pub open spec fn perm_code(p: Perm) -> u8 {
    match p {
        Perm::Ask => ioctl::AGFS_PERM_ASK,
        Perm::Allow => ioctl::AGFS_PERM_ALLOW,
        Perm::AllowRw => ioctl::AGFS_PERM_ALLOW_RW,
        Perm::AllowRo => ioctl::AGFS_PERM_ALLOW_RO,
        Perm::AllowRx => ioctl::AGFS_PERM_ALLOW_RX,
        Perm::Deny => ioctl::AGFS_PERM_DENY,
    }
}

/// The name of a permission.
pub open spec fn perm_name(p: Perm) -> Seq<char> {
    match p {
        Perm::Ask => "ask"@,
        Perm::Allow => "allow"@,
        Perm::AllowRw => "allow-rw"@,
        Perm::AllowRo => "allow-ro"@,
        Perm::AllowRx => "allow-rx"@,
        Perm::Deny => "deny"@,
    }
}

impl Perm {
    /// The number that the kernel module knows the permission by.
    pub fn to_ioctl(self) -> (r: u8)
        ensures
            r == perm_code(self),
            self is Ask <==> r == 1,
            self is Allow <==> r == 2,
            self is AllowRw <==> r == 3,
            self is AllowRo <==> r == 4,
            self is AllowRx <==> r == 5,
            self is Deny <==> r == 6,
    {
        match self {
            Perm::Ask => ioctl::AGFS_PERM_ASK,
            Perm::Allow => ioctl::AGFS_PERM_ALLOW,
            Perm::AllowRw => ioctl::AGFS_PERM_ALLOW_RW,
            Perm::AllowRo => ioctl::AGFS_PERM_ALLOW_RO,
            Perm::AllowRx => ioctl::AGFS_PERM_ALLOW_RX,
            Perm::Deny => ioctl::AGFS_PERM_DENY,
        }
    }

    /// The name of the permission.
    pub fn name(self) -> (r: &'static str)
        ensures
            r@ == perm_name(self),
    {
        match self {
            Perm::Ask => "ask",
            Perm::Allow => "allow",
            Perm::AllowRw => "allow-rw",
            Perm::AllowRo => "allow-ro",
            Perm::AllowRx => "allow-rx",
            Perm::Deny => "deny",
        }
    }

    /// The name of the permission, as a string.
    pub fn to_string(&self) -> (r: String)
        ensures
            r@ == perm_name(*self),
    {
        self.name().to_owned()
    }

    /// The permission of that name.
    pub fn from_name(s: &str) -> (r: Result<Perm, Error>)
        ensures
            match r {
                Ok(p) => s@ == perm_name(p),
                Err(Error::UnknownPermission(n)) => n@ == s@ && (forall|p: Perm|
                    s@ != #[trigger] perm_name(p)),
                Err(_) => false,
            },
    {
        if same(s, "ask") {
            Ok(Perm::Ask)
        } else if same(s, "allow") {
            Ok(Perm::Allow)
        } else if same(s, "allow-rw") {
            Ok(Perm::AllowRw)
        } else if same(s, "allow-ro") {
            Ok(Perm::AllowRo)
        } else if same(s, "allow-rx") {
            Ok(Perm::AllowRx)
        } else if same(s, "deny") {
            Ok(Perm::Deny)
        } else {
            assert forall|p: Perm| s@ != #[trigger] perm_name(p) by {
                match p {
                    Perm::Ask => {},
                    Perm::Allow => {},
                    Perm::AllowRw => {},
                    Perm::AllowRo => {},
                    Perm::AllowRx => {},
                    Perm::Deny => {},
                }
            }
            Err(Error::UnknownPermission(s.to_owned()))
        }
    }
}

impl std::str::FromStr for Perm {
    type Err = Error;

    /// The permission of that name.
    fn from_str(s: &str) -> (r: Result<Self, Error>)
        ensures
            match r {
                Ok(p) => s@ == perm_name(p),
                Err(Error::UnknownPermission(n)) => n@ == s@ && (forall|p: Perm|
                    s@ != #[trigger] perm_name(p)),
                Err(_) => false,
            },
    {
        Perm::from_name(s)
    }
}

/// The kernel module knows each permission by its own number, and rules name
/// it by its own name: a permission called `deny` is the one with the number 6,
/// and no other is.
pub proof fn law_perm_numbers(p: Perm)
    ensures
        1 <= perm_code(p) <= 6,
        perm_name(p) == "ask"@ <==> perm_code(p) == 1,
        perm_name(p) == "allow"@ <==> perm_code(p) == 2,
        perm_name(p) == "allow-rw"@ <==> perm_code(p) == 3,
        perm_name(p) == "allow-ro"@ <==> perm_code(p) == 4,
        perm_name(p) == "allow-rx"@ <==> perm_code(p) == 5,
        perm_name(p) == "deny"@ <==> perm_code(p) == 6,
{
    law_perms_differ(p, Perm::Ask);
    law_perms_differ(p, Perm::Allow);
    law_perms_differ(p, Perm::AllowRw);
    law_perms_differ(p, Perm::AllowRo);
    law_perms_differ(p, Perm::AllowRx);
    law_perms_differ(p, Perm::Deny);
}

/// No two permissions have one name or one number.
pub proof fn law_perms_differ(p: Perm, q: Perm)
    ensures
        perm_name(p) == perm_name(q) ==> p == q,
        perm_code(p) == perm_code(q) ==> p == q,
{
    reveal_strlit("ask");
    reveal_strlit("allow");
    reveal_strlit("allow-rw");
    reveal_strlit("allow-ro");
    reveal_strlit("allow-rx");
    reveal_strlit("deny");
    if perm_name(p) == perm_name(q) {
        assert(perm_name(p).len() == perm_name(q).len());
        assert(perm_name(p)[0] == perm_name(q)[0]);
        if perm_name(p).len() == 8 {
            assert(perm_name(p)[7] == perm_name(q)[7]);
        }
    }
}

/// How the filesystem is mounted.
#[derive(Debug, Clone, Copy)]
pub struct MountConfig {
    pub noperm: bool,
    pub nostaging: bool,
    pub ask_timeout: Option<u64>,
    pub ask_default: Option<Perm>,
}

impl Default for MountConfig {
    fn default() -> (r: Self)
        ensures
            r == (MountConfig {
                noperm: false,
                nostaging: false,
                ask_timeout: None,
                ask_default: None,
            }),
    {
        MountConfig { noperm: false, nostaging: false, ask_timeout: None, ask_default: None }
    }
}

/// How commands are run.
#[derive(Debug, Clone, Copy)]
pub struct ExecConfig {
    pub auto_snapshot: bool,
}

impl Default for ExecConfig {
    fn default() -> (r: Self)
        ensures
            r == (ExecConfig { auto_snapshot: false }),
    {
        ExecConfig { auto_snapshot: false }
    }
}

/// The configuration of a project.
#[derive(Debug)]
pub struct Config {
    pub mount: MountConfig,
    pub exec_config: ExecConfig,
    pub rules: PathMap<Perm>,
}

/// The rules of a new project.
pub open spec fn default_rules() -> Map<Seq<char>, Perm> {
    Map::<Seq<char>, Perm>::empty().insert("/usr"@, Perm::AllowRx).insert(
        "/lib"@,
        Perm::AllowRx,
    ).insert("/lib64"@, Perm::AllowRx).insert("/etc"@, Perm::AllowRo).insert(
        "/bin"@,
        Perm::AllowRx,
    ).insert("/sbin"@, Perm::AllowRx)
}

/// The mount section of a new project.
pub open spec fn default_mount() -> MountConfig {
    MountConfig {
        noperm: false,
        nostaging: false,
        ask_timeout: None,
        ask_default: Some(Perm::Deny),
    }
}

impl Default for Config {
    fn default() -> (r: Self)
        ensures
            r.mount == default_mount(),
            r.exec_config == (ExecConfig { auto_snapshot: false }),
            r.rules@ == default_rules(),
    {
        let mut rules: PathMap<Perm> = PathMap::new();
        rules.insert("/usr".to_owned(), Perm::AllowRx);
        rules.insert("/lib".to_owned(), Perm::AllowRx);
        rules.insert("/lib64".to_owned(), Perm::AllowRx);
        rules.insert("/etc".to_owned(), Perm::AllowRo);
        rules.insert("/bin".to_owned(), Perm::AllowRx);
        rules.insert("/sbin".to_owned(), Perm::AllowRx);
        Config {
            mount: MountConfig {
                noperm: false,
                nostaging: false,
                ask_timeout: None,
                ask_default: Some(Perm::Deny),
            },
            exec_config: ExecConfig { auto_snapshot: false },
            rules,
        }
    }
}

// ── Mount options ────────────────────────────────────────────────────

/// The options that a mount section stands for, one by one.
pub open spec fn option_list(m: MountConfig) -> Seq<Seq<char>> {
    let a = if m.noperm {
        seq!["noperm"@]
    } else {
        seq![]
    };
    let b = if m.nostaging {
        a.push("nostaging"@)
    } else {
        a
    };
    let c = match m.ask_timeout {
        Some(v) => b.push("ask_timeout="@ + decimal(v as nat)),
        None => b,
    };
    match m.ask_default {
        Some(p) => c.push("ask_default="@ + decimal(perm_code(p) as nat)),
        None => c,
    }
}

/// The mount options for the kernel, with commas between them; none where
/// there is no configuration.
pub fn mount_options(config: Option<&Config>) -> (r: String)
    ensures
        r@ == (match config {
            Some(c) => separated(option_list(c.mount), ","@),
            None => ""@,
        }),
{
    let m: &MountConfig = match config {
        Some(c) => &c.mount,
        None => return "".to_owned(),
    };
    let mut opts: Vec<String> = Vec::new();
    let ghost mut v: Seq<Seq<char>> = seq![];
    if m.noperm {
        opts.push("noperm".to_owned());
        proof {
            v = v.push("noperm"@);
        }
    }
    assert(string_views(opts@) =~= v);
    if m.nostaging {
        opts.push("nostaging".to_owned());
        proof {
            v = v.push("nostaging"@);
        }
    }
    assert(string_views(opts@) =~= v);
    if let Some(t) = m.ask_timeout {
        let n = to_decimal(t);
        opts.push("ask_timeout=".to_owned().concat(n.as_str()));
        proof {
            v = v.push("ask_timeout="@ + decimal(t as nat));
        }
    }
    assert(string_views(opts@) =~= v);
    if let Some(p) = m.ask_default {
        let n = to_decimal(p.to_ioctl() as u64);
        opts.push("ask_default=".to_owned().concat(n.as_str()));
        proof {
            v = v.push("ask_default="@ + decimal(perm_code(p) as nat));
        }
    }
    assert(string_views(opts@) =~= v);
    assert(v =~= option_list(*m));
    join(&opts, ",")
}

/// The exec section, or its default where there is no configuration.
pub fn load_exec_config(config: Option<&Config>) -> (r: ExecConfig)
    ensures
        r == (match config {
            Some(c) => c.exec_config,
            None => ExecConfig { auto_snapshot: false },
        }),
{
    match config {
        Some(c) => c.exec_config,
        None => ExecConfig { auto_snapshot: false },
    }
}

// ── Rules ────────────────────────────────────────────────────────────

/// Adds a rule. Where there is no configuration yet, a new one has this rule alone.
pub fn add_rule(config: Option<Config>, path: &str, perm: &str) -> (r: Result<Config, Error>)
    ensures
        match r {
            Ok(c) => exists|p: Perm|
                perm@ == #[trigger] perm_name(p) && match config {
                    Some(old) => c.mount == old.mount && c.exec_config == old.exec_config && c.rules@
                        == old.rules@.insert(path@, p),
                    None => c.mount == default_mount() && c.exec_config == (ExecConfig {
                        auto_snapshot: false,
                    }) && c.rules@ == Map::<Seq<char>, Perm>::empty().insert(path@, p),
                },
            Err(Error::UnknownPermission(n)) => n@ == perm@ && (forall|p: Perm|
                perm@ != #[trigger] perm_name(p)),
            Err(_) => false,
        },
{
    let p: Perm = match Perm::from_name(perm) {
        Ok(p) => p,
        Err(e) => return Err(e),
    };
    let mut c: Config = match config {
        Some(c) => c,
        None => {
            let d = Config::default();
            Config { mount: d.mount, exec_config: d.exec_config, rules: PathMap::new() }
        },
    };
    c.rules.insert(path.to_owned(), p);
    assert(perm@ == perm_name(p));
    Ok(c)
}

/// Removes the rule for a path, if there is one.
pub fn remove_rule(config: Config, path: &str) -> (r: Config)
    ensures
        r.mount == config.mount,
        r.exec_config == config.exec_config,
        r.rules@ == config.rules@.remove(path@),
{
    let mut c = config;
    c.rules.remove(path);
    c
}

/// A rule that is added can be read, and is gone when it is removed.
pub proof fn law_rule_added_removed(m: Map<Seq<char>, Perm>, path: Seq<char>, p: Perm)
    ensures
        m.insert(path, p)[path] == p,
        !m.contains_key(path) ==> m.insert(path, p).remove(path) == m,
{
    if !m.contains_key(path) {
        assert(m.insert(path, p).remove(path) =~= m);
    }
}

// ── Paths of rules ───────────────────────────────────────────────────

/// True when the path begins with the name of the home directory.
pub open spec fn names_home(path: Seq<char>) -> bool {
    begins(path, "$HOME"@) || begins(path, "~"@)
}

/// The path with the home directory put in for `~` or `$HOME` at its start.
pub open spec fn expanded(path: Seq<char>, home: Seq<char>) -> Seq<char> {
    if path == "~"@ || path == "$HOME"@ {
        home
    } else if begins(path, "~/"@) {
        home + "/"@ + path.skip(2)
    } else if begins(path, "$HOME/"@) {
        home + "/"@ + path.skip(6)
    } else {
        path
    }
}

/// Puts the home directory in for `~` or `$HOME` at the start of a path.
/// Fails where it is needed and not known.
pub fn expand_home(path: &str, home: Option<&str>) -> (r: Result<String, Error>)
    ensures
        match r {
            Ok(s) => if names_home(path@) {
                home is Some && s@ == expanded(path@, (home->0)@)
            } else {
                s@ == path@
            },
            Err(e) => names_home(path@) && home is None && e is HomeNotSet,
        },
{
    if !starts_with(path, "$HOME") && !starts_with(path, "~") {
        return Ok(path.to_owned());
    }
    let home: &str = match home {
        Some(h) => h,
        None => return Err(Error::HomeNotSet),
    };
    proof {
        reveal_strlit("~/");
        reveal_strlit("$HOME/");
    }
    if same(path, "~") || same(path, "$HOME") {
        Ok(home.to_owned())
    } else if starts_with(path, "~/") {
        let rest = skip_chars(path, 2);
        Ok(home.to_owned().concat("/").concat(rest.as_str()))
    } else if starts_with(path, "$HOME/") {
        let rest = skip_chars(path, 6);
        Ok(home.to_owned().concat("/").concat(rest.as_str()))
    } else {
        Ok(path.to_owned())
    }
}

/// The path without the slashes at its start.
pub open spec fn without_leading_slashes(s: Seq<char>) -> Seq<char>
    decreases s.len(),
{
    if s.len() > 0 && s[0] == '/' {
        without_leading_slashes(s.skip(1))
    } else {
        s
    }
}

/// The path below the mount point that an absolute path has there.
pub fn resolve_through_mount(abs_path: &str, mnt: &str) -> (r: String)
    ensures
        r@ == joined(mnt@, without_leading_slashes(abs_path@)),
{
    let v = chars_of(abs_path);
    let mut i: usize = 0;
    assert(v@.skip(0) =~= v@);
    while i < v.len() && v[i] == '/'
        invariant
            i <= v@.len(),
            without_leading_slashes(v@.skip(i as int)) == without_leading_slashes(abs_path@),
        decreases v@.len() - i,
    {
        assert(v@.skip(i as int).skip(1) =~= v@.skip(i + 1));
        i += 1;
    }
    let rest = string_of(&v, i, v.len());
    assert(rest@ =~= v@.skip(i as int));
    join_path(mnt, rest.as_str())
}

// ── Laws ─────────────────────────────────────────────────────────────

/// A new project is careful: its rules let nothing be written, what no rule
/// speaks of is denied where nobody answers, and neither permissions nor
/// staging are off.
pub proof fn law_defaults_are_careful(path: Seq<char>)
    ensures
        default_rules().contains_key(path) ==> perm_code(default_rules()[path]) == 4 || perm_code(
            default_rules()[path],
        ) == 5,
        default_mount().ask_default matches Some(p) && perm_code(p) == 6,
        !default_mount().noperm && !default_mount().nostaging,
{
}

proof fn lemma_option_letters(n: nat)
    ensures
        "noperm"@.len() == 6 && "noperm"@[0] == 'n' && "noperm"@[2] == 'p',
        "nostaging"@.len() == 9 && "nostaging"@[0] == 'n' && "nostaging"@[2] == 's',
        ("ask_timeout="@ + decimal(n))[0] == 'a' && ("ask_timeout="@ + decimal(n))[4] == 't',
        ("ask_default="@ + decimal(n))[0] == 'a' && ("ask_default="@ + decimal(n))[4] == 'd',
        "ask_timeout="@.len() == 12 && "ask_default="@.len() == 12,
{
    reveal_strlit("noperm");
    reveal_strlit("nostaging");
    reveal_strlit("ask_timeout=");
    reveal_strlit("ask_default=");
}

proof fn lemma_same_number(p: Seq<char>, a: nat, b: nat)
    requires
        p + decimal(a) == p + decimal(b),
    ensures
        a == b,
{
    let n = p.len() as int;
    assert((p + decimal(a)).skip(n) =~= decimal(a));
    assert((p + decimal(b)).skip(n) =~= decimal(b));
    law_decimal_injective(a, b);
}

/// The mount options are those of the mount section: each is there exactly
/// where the section says so, with its number, and none is there twice.
pub proof fn law_options_tell_mount(m: MountConfig, n: u64)
    ensures
        option_list(m).contains("noperm"@) <==> m.noperm,
        option_list(m).contains("nostaging"@) <==> m.nostaging,
        option_list(m).contains("ask_timeout="@ + decimal(n as nat)) <==> m.ask_timeout == Some(n),
        option_list(m).contains("ask_default="@ + decimal(n as nat)) <==> (m.ask_default matches Some(
            p,
        ) && perm_code(p) == n),
        option_list(m).no_duplicates(),
{
    let l = option_list(m);
    let t = match m.ask_timeout {
        Some(v) => v as nat,
        None => 0,
    };
    let d = match m.ask_default {
        Some(p) => perm_code(p) as nat,
        None => 0,
    };
    lemma_option_letters(t);
    lemma_option_letters(d);
    lemma_option_letters(n as nat);
    if "ask_timeout="@ + decimal(n as nat) == "ask_timeout="@ + decimal(t) {
        lemma_same_number("ask_timeout="@, n as nat, t);
    }
    if "ask_default="@ + decimal(n as nat) == "ask_default="@ + decimal(d) {
        lemma_same_number("ask_default="@, n as nat, d);
    }
    let i: int = 0;
    let j: int = i + if m.noperm {
        1int
    } else {
        0
    };
    let k: int = j + if m.nostaging {
        1int
    } else {
        0
    };
    let e: int = k + if m.ask_timeout is Some {
        1int
    } else {
        0
    };
    if m.noperm {
        assert(l[i] == "noperm"@);
    }
    if m.nostaging {
        assert(l[j] == "nostaging"@);
    }
    if m.ask_timeout is Some {
        assert(l[k] == "ask_timeout="@ + decimal(t));
    }
    if m.ask_default is Some {
        assert(l[e] == "ask_default="@ + decimal(d));
    }
    assert forall|x: int| 0 <= x < l.len() implies (#[trigger] l[x] == "noperm"@ && m.noperm && x
        == i) || (l[x] == "nostaging"@ && m.nostaging && x == j) || (l[x] == "ask_timeout="@
        + decimal(t) && m.ask_timeout is Some && x == k) || (l[x] == "ask_default="@ + decimal(d)
        && m.ask_default is Some && x == e) by {}
}

/// A path that is looked up through the mount stays below it, however many
/// slashes it begins with, and keeps its names.
pub proof fn law_resolved_is_below_mount(mnt: Seq<char>, path: Seq<char>)
    ensures
        begins(joined(mnt, without_leading_slashes(path)), mnt),
        exists|n: int|
            0 <= n <= path.len() && without_leading_slashes(path) == #[trigger] path.skip(n) && (
            forall|i: int| 0 <= i < n ==> path[i] == '/'),
        without_leading_slashes(path).len() > 0 ==> without_leading_slashes(path)[0] != '/',
{
    let n = lemma_leading_slashes(path);
    let w = without_leading_slashes(path);
    assert(w == path.skip(n));
    let j = joined(mnt, w);
    assert(j.take(mnt.len() as int) =~= mnt);
}

proof fn lemma_leading_slashes(path: Seq<char>) -> (n: int)
    ensures
        0 <= n <= path.len(),
        without_leading_slashes(path) == path.skip(n),
        forall|i: int| 0 <= i < n ==> path[i] == '/',
        n < path.len() ==> path[n] != '/',
    decreases path.len(),
{
    if path.len() > 0 && path[0] == '/' {
        let t = path.skip(1);
        let n = lemma_leading_slashes(t);
        assert(t.skip(n) =~= path.skip(n + 1));
        assert forall|i: int| 0 <= i < n + 1 implies path[i] == '/' by {
            if i > 0 {
                assert(t[i - 1] == path[i]);
            }
        }
        if n + 1 < path.len() {
            assert(t[n] == path[n + 1]);
        }
        n + 1
    } else {
        assert(path.skip(0) =~= path);
        0
    }
}

/// `~` and `$HOME` mean the same, and what follows them is kept. A name that
/// only begins like them is left as it is.
pub proof fn law_home_is_put_in(rest: Seq<char>, home: Seq<char>, c: char)
    requires
        c != '/',
    ensures
        expanded("~"@, home) == home,
        expanded("$HOME"@, home) == home,
        expanded("~/"@ + rest, home) == home + seq!['/'] + rest,
        expanded("$HOME/"@ + rest, home) == home + seq!['/'] + rest,
        expanded("~"@ + seq![c] + rest, home) == "~"@ + seq![c] + rest,
{
    reveal_strlit("~");
    reveal_strlit("$HOME");
    reveal_strlit("~/");
    reveal_strlit("$HOME/");
    reveal_strlit("/");
    let (a, b, d) = ("~/"@ + rest, "$HOME/"@ + rest, "~"@ + seq![c] + rest);
    assert("/"@ =~= seq!['/']);
    assert(a.take(2) =~= "~/"@);
    assert(a.skip(2) =~= rest);
    assert(b.take(6) =~= "$HOME/"@);
    assert(b.skip(6) =~= rest);
    assert(b[0] == '$' && a[0] == '~' && a[1] == '/');
    assert(b[5] == '/');
    assert(b.take(2)[0] == '$');
    assert("~/"@[0] == '~');
    assert(a != "~"@ && a != "$HOME"@) by {
        assert("$HOME"@[0] == '$');
    }
    assert(b != "~"@ && b.len() > 5);
    assert(d[1] == c && d[0] == '~');
    assert(d.len() > 1);
    assert("$HOME"@[0] == '$' && "$HOME/"@[0] == '$');
    if begins(d, "~/"@) {
        assert(d.take(2)[1] == '/');
    }
    if begins(d, "$HOME/"@) {
        assert(d.take(6)[0] == '$');
    }
}

} // verus!
