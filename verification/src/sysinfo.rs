//! Describes the user's system environment for tailored AI responses and `/info`.
//!
//! Missing info is represented as empty strings or empty lists. Package inventory is
//! omitted; `installed_packages` is always empty.
use vstd::prelude::*;
use vstd::string::*;

use crate::path;
use crate::text;
use crate::text::CharSet;
use crate::types::SystemInfo;

verus! {

broadcast use vstd::string::group_string_axioms;

/// What the system says of itself.
#[derive(Debug, Clone, PartialEq, Eq)]
pub struct SystemFacts {
    /// Name of the operating system, as in `std::env::consts::OS`.
    pub os: String,
    /// Name of the architecture.
    pub arch: String,
    /// Path of the user's shell, where it is known.
    pub shell: Option<String>,
    /// Programs that are found on `$PATH`.
    pub on_path: Vec<String>,
    /// Contents of `/etc/os-release`, where it can be read.
    pub os_release: Option<String>,
    /// What `sw_vers -productVersion` wrote, where it succeeded.
    pub product_version: Option<Vec<u8>>,
    /// Seconds since the Unix epoch, where the clock is behind it.
    pub now: Option<i64>,
}

/// Package managers that are looked for.
pub open spec fn managers() -> Seq<Seq<char>> {
    seq![
        "brew"@,
        "apt"@,
        "apt-get"@,
        "dnf"@,
        "pacman"@,
        "zypper"@,
        "nix-env"@,
        "conda"@,
        "pip3"@,
        "cargo"@,
        "gem"@,
        "npm"@,
        "yarn"@,
        "pnpm"@,
    ]
}

/// Package managers that are looked for.
pub fn package_manager_names() -> (r: Vec<String>)
    ensures
        text::views(r@) == managers(),
{
    let mut out: Vec<String> = Vec::new();
    text::push_text(&mut out, "brew".to_owned());
    text::push_text(&mut out, "apt".to_owned());
    text::push_text(&mut out, "apt-get".to_owned());
    text::push_text(&mut out, "dnf".to_owned());
    text::push_text(&mut out, "pacman".to_owned());
    text::push_text(&mut out, "zypper".to_owned());
    text::push_text(&mut out, "nix-env".to_owned());
    text::push_text(&mut out, "conda".to_owned());
    text::push_text(&mut out, "pip3".to_owned());
    text::push_text(&mut out, "cargo".to_owned());
    text::push_text(&mut out, "gem".to_owned());
    text::push_text(&mut out, "npm".to_owned());
    text::push_text(&mut out, "yarn".to_owned());
    text::push_text(&mut out, "pnpm".to_owned());
    assert(text::views(out@) =~= managers());
    out
}

/// Developer tools that are looked for.
pub open spec fn tools() -> Seq<Seq<char>> {
    seq![
        "git"@,
        "gh"@,
        "hg"@,
        "svn"@,
        "docker"@,
        "podman"@,
        "kubectl"@,
        "helm"@,
        "kind"@,
        "python3"@,
        "python"@,
        "node"@,
        "ruby"@,
        "go"@,
        "java"@,
        "rustc"@,
        "perl"@,
        "php"@,
        "make"@,
        "cmake"@,
        "ninja"@,
        "gradle"@,
        "mvn"@,
        "aws"@,
        "gcloud"@,
        "az"@,
        "terraform"@,
        "curl"@,
        "wget"@,
        "jq"@,
        "fzf"@,
        "rg"@,
        "fd"@,
        "bat"@,
        "eza"@,
        "htop"@,
        "tmux"@,
    ]
}

/// Developer tools that are looked for.
pub fn dev_tool_names() -> (r: Vec<String>)
    ensures
        text::views(r@) == tools(),
{
    let mut out: Vec<String> = Vec::new();
    text::push_text(&mut out, "git".to_owned());
    text::push_text(&mut out, "gh".to_owned());
    text::push_text(&mut out, "hg".to_owned());
    text::push_text(&mut out, "svn".to_owned());
    text::push_text(&mut out, "docker".to_owned());
    text::push_text(&mut out, "podman".to_owned());
    text::push_text(&mut out, "kubectl".to_owned());
    text::push_text(&mut out, "helm".to_owned());
    text::push_text(&mut out, "kind".to_owned());
    text::push_text(&mut out, "python3".to_owned());
    text::push_text(&mut out, "python".to_owned());
    text::push_text(&mut out, "node".to_owned());
    text::push_text(&mut out, "ruby".to_owned());
    text::push_text(&mut out, "go".to_owned());
    text::push_text(&mut out, "java".to_owned());
    text::push_text(&mut out, "rustc".to_owned());
    text::push_text(&mut out, "perl".to_owned());
    text::push_text(&mut out, "php".to_owned());
    text::push_text(&mut out, "make".to_owned());
    text::push_text(&mut out, "cmake".to_owned());
    text::push_text(&mut out, "ninja".to_owned());
    text::push_text(&mut out, "gradle".to_owned());
    text::push_text(&mut out, "mvn".to_owned());
    text::push_text(&mut out, "aws".to_owned());
    text::push_text(&mut out, "gcloud".to_owned());
    text::push_text(&mut out, "az".to_owned());
    text::push_text(&mut out, "terraform".to_owned());
    text::push_text(&mut out, "curl".to_owned());
    text::push_text(&mut out, "wget".to_owned());
    text::push_text(&mut out, "jq".to_owned());
    text::push_text(&mut out, "fzf".to_owned());
    text::push_text(&mut out, "rg".to_owned());
    text::push_text(&mut out, "fd".to_owned());
    text::push_text(&mut out, "bat".to_owned());
    text::push_text(&mut out, "eza".to_owned());
    text::push_text(&mut out, "htop".to_owned());
    text::push_text(&mut out, "tmux".to_owned());
    assert(text::views(out@) =~= tools());
    out
}

/// Those of `names` that are among `found`, in their order.
pub open spec fn present(names: Seq<Seq<char>>, found: Seq<Seq<char>>) -> Seq<Seq<char>>
    decreases names.len(),
{
    if names.len() == 0 {
        seq![]
    } else if found.contains(names.last()) {
        present(names.drop_last(), found).push(names.last())
    } else {
        present(names.drop_last(), found)
    }
}

fn keep_present(names: Vec<String>, found: &[String]) -> (r: Vec<String>)
    ensures
        text::views(r@) == present(text::views(names@), text::views(found@)),
{
    let ghost all = text::views(names@);
    let mut out: Vec<String> = Vec::new();
    let mut i: usize = 0;
    assert(text::views(out@) =~= seq![]);
    while i < names.len()
        invariant
            i <= names@.len(),
            all == text::views(names@),
            text::views(out@) == present(all.take(i as int), text::views(found@)),
        decreases names@.len() - i,
    {
        assert(all.take(i + 1).drop_last() =~= all.take(i as int));
        assert(all.take(i + 1).last() == names@[i as int]@);
        if text::list_contains(found, names[i].as_str()) {
            text::push_text(&mut out, names[i].clone());
        }
        i += 1;
    }
    assert(all.take(i as int) =~= all);
    out
}

/// The capitals of a character.
pub uninterp spec fn capital(c: char) -> Seq<char>;

/// `char::to_uppercase` from the standard library. Its result is a function of the character,
/// named [`capital`]; a small ASCII letter has one capital.
#[verifier::external_body]
fn to_uppercase(c: char) -> (r: String)
    ensures
        r@ == capital(c),
        text::is_lower(c) ==> r@ == seq![text::upper(c)],
{
    c.to_uppercase().collect()
}

/// The name in the first `PRETTY_NAME` line that has one, without quotes and white space
/// around it.
pub open spec fn pretty_name(lines: Seq<Seq<char>>) -> Option<Seq<char>>
    decreases lines.len(),
{
    if lines.len() == 0 {
        None
    } else {
        let line = lines[0];
        if "PRETTY_NAME="@.is_prefix_of(line) && name_in(line.skip(12)).len() > 0 {
            Some(name_in(line.skip(12)))
        } else {
            pretty_name(lines.drop_first())
        }
    }
}

/// A value without quotes and white space around it.
pub open spec fn name_in(value: Seq<char>) -> Seq<char> {
    text::trimmed(text::trimmed_of(text::trimmed(value), CharSet::Just('"')))
}

/// The name of a Linux system, out of its `os-release` file.
pub fn linux_pretty_name(file: &str) -> (r: Option<String>)
    ensures
        match r {
            Some(n) => pretty_name(text::line_list(file@)) == Some(n@),
            None => pretty_name(text::line_list(file@)) is None,
        },
{
    let lines = text::lines(file);
    let ghost all = text::line_list(file@);
    let mut i: usize = 0;
    assert(all.skip(0) =~= all);
    proof {
        reveal_strlit("PRETTY_NAME=");
    }
    while i < lines.len()
        invariant
            i <= lines@.len(),
            text::views(lines@) == all,
            all == text::line_list(file@),
            "PRETTY_NAME="@.len() == 12,
            pretty_name(all) == pretty_name(all.skip(i as int)),
        decreases lines@.len() - i,
    {
        let line = lines[i].as_str();
        assert(all.skip(i as int)[0] == line@);
        assert(all.skip(i as int).drop_first() =~= all.skip(i + 1));
        if text::starts_with(line, "PRETTY_NAME=") {
            let n = line.unicode_len();
            let value = line.substring_char(12, n);
            assert(value@ =~= line@.skip(12));
            let name = text::trim(text::trim_of(text::trim(value), CharSet::Just('"')));
            if !name.is_empty() {
                return Some(name.to_owned());
            }
        }
        i += 1;
    }
    None
}

/// What an operating system is called, where `version` is what `sw_vers` wrote and `release`
/// the contents of `os-release`.
pub open spec fn os_name(
    os: Seq<char>,
    release: Option<Seq<char>>,
    version: Option<Seq<char>>,
) -> Seq<char> {
    if os == "macos"@ {
        if version is Some && text::trimmed(version->0).len() > 0 {
            "macOS "@ + text::trimmed(version->0)
        } else {
            "macOS"@
        }
    } else if os == "linux"@ {
        if release is Some && pretty_name(text::line_list(release->0)) is Some {
            pretty_name(text::line_list(release->0))->0
        } else {
            "Linux"@
        }
    } else if os == "windows"@ {
        "Windows"@
    } else if os.len() == 0 {
        "Unknown"@
    } else {
        capital(os[0]) + os.skip(1)
    }
}

/// What an operating system is called.
pub fn detect_os(os: &str, release: Option<&str>, version: Option<&str>) -> (r: String)
    ensures
        r@ == os_name(os@, text::opt_text(release), text::opt_text(version)),
{
    if text::same(os, "macos") {
        if let Some(v) = version {
            let v = text::trim(v);
            if !v.is_empty() {
                return text::concat("macOS ", v);
            }
        }
        return "macOS".to_owned();
    }
    if text::same(os, "linux") {
        if let Some(file) = release {
            if let Some(name) = linux_pretty_name(file) {
                return name;
            }
        }
        return "Linux".to_owned();
    }
    if text::same(os, "windows") {
        return "Windows".to_owned();
    }
    if os.is_empty() {
        return "Unknown".to_owned();
    }
    let first = to_uppercase(os.get_char(0));
    let n = os.unicode_len();
    let rest = os.substring_char(1, n);
    assert(rest@ =~= os@.skip(1));
    text::concat(first.as_str(), rest)
}

/// The name of a shell, out of its path.
pub open spec fn shell_name(path: Option<Seq<char>>) -> Seq<char> {
    match path {
        Some(p) => match path::last_name(p) {
            Some(name) => name,
            None => "unknown"@,
        },
        None => "unknown"@,
    }
}

/// Return a snapshot of the user's system environment.
pub fn collect(facts: &SystemFacts) -> (r: SystemInfo)
    ensures
        r.os@ == os_name(
            facts.os@,
            text::opt_string(facts.os_release),
            match facts.product_version {
                Some(bytes) => Some(text::lossy_text(bytes@)),
                None => None,
            },
        ),
        r.arch@ == facts.arch@,
        r.shell@ == shell_name(text::opt_string(facts.shell)),
        text::views(r.package_managers@) == present(managers(), text::views(facts.on_path@)),
        text::views(r.installed_tools@) == present(tools(), text::views(facts.on_path@)),
        r.installed_packages@.len() == 0,
        r.installed_packages_total is None,
        r.collected_at == facts.now,
        r.collected_at_display is None,
{
    let shell = match &facts.shell {
        Some(p) => match path::file_name(p.as_str()) {
            Some(name) => name,
            None => "unknown".to_owned(),
        },
        None => "unknown".to_owned(),
    };
    let release = match &facts.os_release {
        Some(file) => Some(file.as_str()),
        None => None,
    };
    let os = match &facts.product_version {
        Some(bytes) => {
            let version = text::from_utf8_lossy(bytes.as_slice());
            detect_os(facts.os.as_str(), release, Some(version.as_str()))
        },
        None => detect_os(facts.os.as_str(), release, None),
    };
    SystemInfo {
        os,
        arch: facts.arch.clone(),
        shell,
        package_managers: keep_present(package_manager_names(), facts.on_path.as_slice()),
        installed_packages: Vec::new(),
        installed_packages_total: None,
        installed_tools: keep_present(dev_tool_names(), facts.on_path.as_slice()),
        collected_at: facts.now,
        collected_at_display: None,
    }
}

/// Of the programs that are looked for, those are listed that were found, each of them and no
/// other.
pub proof fn law_present(names: Seq<Seq<char>>, found: Seq<Seq<char>>, name: Seq<char>)
    ensures
        present(names, found).contains(name) <==> names.contains(name) && found.contains(name),
        (forall|k: int| 0 <= k < names.len() ==> found.contains(#[trigger] names[k])) ==> present(
            names,
            found,
        ) == names,
    decreases names.len(),
{
    if names.len() > 0 {
        let init = names.drop_last();
        let before = present(init, found);
        let all = present(names, found);
        law_present(init, found, name);
        if names.contains(name) {
            let k = names.index_of(name);
            if k < init.len() {
                assert(init[k] == name);
            }
        }
        if init.contains(name) {
            let k = init.index_of(name);
            assert(names[k] == name);
        }
        if found.contains(names.last()) {
            assert(all[before.len() as int] == names.last());
            assert(names[names.len() - 1] == names.last());
            if before.contains(name) {
                let k = before.index_of(name);
                assert(all[k] == name);
            }
            if all.contains(name) && name != names.last() {
                let k = all.index_of(name);
                assert(before[k] == name);
            }
        }
        if forall|k: int| 0 <= k < names.len() ==> found.contains(#[trigger] names[k]) {
            assert forall|k: int| 0 <= k < init.len() implies found.contains(
                #[trigger] init[k],
            ) by {
                assert(init[k] == names[k]);
            }
            assert(found.contains(names[names.len() - 1]));
            assert(all =~= names);
        }
    } else {
        assert(present(names, found) =~= names);
    }
}

proof fn lemma_pretty_name(lines: Seq<Seq<char>>, i: int, name: Seq<char>)
    requires
        0 <= i < lines.len(),
        lines[i] == "PRETTY_NAME="@ + (seq!['"'] + name + seq!['"']) || lines[i] == "PRETTY_NAME="@
            + name,
        forall|k: int| 0 <= k < i ==> !"PRETTY_NAME="@.is_prefix_of(#[trigger] lines[k]),
        name.len() > 0,
        text::is_tight(name),
        name[0] != '"',
        name.last() != '"',
    ensures
        pretty_name(lines) == Some(name),
    decreases lines.len(),
{
    reveal_strlit("PRETTY_NAME=");
    if i > 0 {
        let rest = lines.drop_first();
        assert(rest[i - 1] == lines[i]);
        assert forall|k: int| 0 <= k < i - 1 implies !"PRETTY_NAME="@.is_prefix_of(
            #[trigger] rest[k],
        ) by {
            assert(rest[k] == lines[k + 1]);
        }
        lemma_pretty_name(rest, i - 1, name);
        assert(!"PRETTY_NAME="@.is_prefix_of(lines[0]));
    } else {
        let value = lines[0].skip(12);
        assert(lines[0].take(12) =~= "PRETTY_NAME="@);
        lemma_quoted(value, name);
    }
}

proof fn lemma_quoted(value: Seq<char>, name: Seq<char>)
    requires
        value =~= seq!['"'] + name + seq!['"'] || value =~= name,
        name.len() > 0,
        text::is_tight(name),
        name[0] != '"',
        name.last() != '"',
    ensures
        name_in(value) == name,
{
    let quote = CharSet::Just('"');
    text::lemma_trimmed_same(value);
    text::lemma_trimmed_same(name);
    let n: int = if value =~= name {
        0
    } else {
        1
    };
    assert(value.skip(n)[0] == name[0]);
    text::lemma_lead_is(value, quote, n);
    let t = value.skip(n);
    text::lemma_trail(t, quote);
    let m = text::trail(t, quote) as int;
    assert(t =~= if n == 0 {
        name
    } else {
        name + seq!['"']
    });
    if m < n {
        assert(t[t.len() - m - 1] == '"');
    }
    if m > n {
        assert(t[t.len() - n - 1] == name.last());
    }
    assert(t.take(t.len() - m) =~= name);
}

/// The name of a distribution is what stands behind `PRETTY_NAME=`, in quotes or not, wherever
/// that line is; the system goes by that name.
pub proof fn law_pretty_name(file: Seq<char>, i: int, name: Seq<char>)
    requires
        0 <= i < text::line_list(file).len(),
        ({
            let line = text::line_list(file)[i];
            ||| line == "PRETTY_NAME="@ + (seq!['"'] + name + seq!['"'])
            ||| line == "PRETTY_NAME="@ + name
        }),
        forall|k: int|
            0 <= k < i ==> !"PRETTY_NAME="@.is_prefix_of(#[trigger] text::line_list(file)[k]),
        name.len() > 0,
        text::is_tight(name),
        name[0] != '"',
        name.last() != '"',
    ensures
        os_name("linux"@, Some(file), None) == name,
{
    reveal_strlit("linux");
    reveal_strlit("macos");
    assert("linux"@[0] == 'l' && "macos"@[0] == 'm');
    lemma_pretty_name(text::line_list(file), i, name);
}

/// macOS is named with its version, and the system without a name is unknown.
pub proof fn law_os_name(
    before: Seq<char>,
    version: Seq<char>,
    after: Seq<char>,
    release: Option<Seq<char>>,
)
    requires
        version.len() > 0,
        text::is_tight(version),
        forall|k: int| 0 <= k < before.len() ==> text::is_white(#[trigger] before[k]),
        forall|k: int| 0 <= k < after.len() ==> text::is_white(#[trigger] after[k]),
    ensures
        os_name("macos"@, release, Some(before + version + after)) == "macOS "@ + version,
        os_name("macos"@, release, None) == "macOS"@,
        os_name("linux"@, None, Some(version)) == "Linux"@,
        os_name(seq![], release, None) == "Unknown"@,
{
    reveal_strlit("linux");
    reveal_strlit("macos");
    reveal_strlit("windows");
    assert("linux"@[0] == 'l' && "macos"@[0] == 'm');
    assert("linux"@.len() == 5 && "macos"@.len() == 5 && "windows"@.len() == 7);
    text::law_trimmed_core(before, version, after);
}

/// The shell is named by the last part of its path.
pub proof fn law_shell_name(dirs: Seq<Seq<char>>, name: Seq<char>)
    requires
        name.len() > 0,
        !name.contains('/'),
        path::is_normal(name),
        forall|k: int|
            0 <= k < dirs.len() ==> (#[trigger] dirs[k]).len() > 0 && !dirs[k].contains('/')
                && dirs[k] != "."@,
    ensures
        shell_name(Some(seq!['/'] + text::joined(dirs.push(name), seq!['/']))) == name,
        shell_name(None) == "unknown"@,
{
    let names = dirs.push(name);
    assert forall|k: int| 0 <= k < names.len() implies (#[trigger] names[k]).len() > 0
        && !names[k].contains('/') && names[k] != "."@ by {
        if k < dirs.len() {
            assert(names[k] == dirs[k]);
        }
    }
    path::law_components(names);
}

/// Windows goes by its name, and any other system by its own, with a capital.
pub proof fn law_other_systems(os: Seq<char>)
    requires
        os.len() > 0,
        os != "macos"@,
        os != "linux"@,
        os != "windows"@,
    ensures
        os_name("windows"@, None, None) == "Windows"@,
        os_name(os, None, None) == capital(os[0]) + os.skip(1),
{
    reveal_strlit("linux");
    reveal_strlit("macos");
    reveal_strlit("windows");
    assert("linux"@.len() == 5 && "macos"@.len() == 5 && "windows"@.len() == 7);
}

} // verus!
