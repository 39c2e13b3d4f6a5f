//! Scripts that packages run around their installation.

use crate::error::{around, message_around, text_result, Error, ErrorView};
use crate::internal::path::{join, join_of};
use crate::internal::text::{
    after_last, before_first, decimal, digit, find_after_last, find_before_first, find_first,
    from_chars, join_lines, joined, pair_views, push_pair, replace, replaced, to_chars, to_decimal,
    views,
};
use crate::package::Package;
use crate::session::{Platform, Session};
use vstd::prelude::*;

verus! {

/// What every hook script starts with: the variables and helper functions that
/// package authors rely on.
pub const POWERSHELL_PRELUDE: &'static str = r#"$ErrorActionPreference = 'Stop'
$ProgressPreference = 'SilentlyContinue'
[Console]::OutputEncoding = [System.Text.UTF8Encoding]::new($false)
$OutputEncoding = [System.Text.UTF8Encoding]::new($false)

$app = $env:HOK_APP
$version = $env:HOK_VERSION
$architecture = $env:HOK_ARCHITECTURE
$cmd = $env:HOK_COMMAND
$global = $false
$dir = $env:HOK_DIR
$original_dir = $env:HOK_ORIGINAL_DIR
$persist_dir = $env:HOK_PERSIST_DIR
$scoopdir = $env:HOK_SCOOP_DIR
$globaldir = $env:HOK_GLOBAL_DIR
$cachedir = $env:HOK_CACHE_DIR
$bucketsdir = $env:HOK_BUCKETS_DIR
$modulesdir = $env:HOK_MODULES_DIR
$cfgpath = $env:HOK_CONFIG_PATH
$oldscoopdir = $env:HOK_OLD_SCOOP_DIR
$cfg = if (Test-Path -LiteralPath $cfgpath) { Get-Content -LiteralPath $cfgpath -Raw -Encoding UTF8 | ConvertFrom-Json } else { [pscustomobject]@{} }
$fname = @($env:HOK_FILENAMES | ConvertFrom-Json)
if ($fname.Count -eq 1) { $fname = $fname[0] }

function appdir($name, $isGlobal = $false) {
    $base = if ($isGlobal) { $globaldir } else { $scoopdir }
    Join-Path (Join-Path $base 'apps') $name
}
function versiondir($name, $targetVersion, $isGlobal = $false) {
    Join-Path (appdir $name $isGlobal) $targetVersion
}
function persistdir($name, $isGlobal = $false) {
    $base = if ($isGlobal) { $globaldir } else { $scoopdir }
    Join-Path (Join-Path $base 'persist') $name
}
function ensure($path) {
    if (!(Test-Path -LiteralPath $path)) { New-Item -ItemType Directory -Path $path -Force | Out-Null }
    Convert-Path -LiteralPath $path
}
function fname($path) { Split-Path -Leaf $path }
function strip_ext($path) { [System.IO.Path]::GetFileNameWithoutExtension($path) }
function info { Write-Host ($args -join ' ') }
function warn { Write-Warning ($args -join ' ') }
function error { Write-Error ($args -join ' ') }
function success { Write-Host ($args -join ' ') -ForegroundColor Green }
function abort { throw ($args -join ' ') }

if (Test-Path -LiteralPath $dir) { Set-Location -LiteralPath $dir }
"#;

/// The points at which a package may run a script.
#[derive(Clone, Copy, Debug, PartialEq, Eq, Structural)]
pub enum Hook {
    PreInstall,
    PostInstall,
    PreUninstall,
    PostUninstall,
}

impl Hook {
    /// The name of the hook in a manifest.
    pub open spec fn name_of(self) -> Seq<char> {
        match self {
            Hook::PreInstall => "pre_install"@,
            Hook::PostInstall => "post_install"@,
            Hook::PreUninstall => "pre_uninstall"@,
            Hook::PostUninstall => "post_uninstall"@,
        }
    }

    /// Returns the name of the hook in a manifest.
    pub fn name(self) -> (r: &'static str)
        ensures
            r@ == self.name_of(),
    {
        match self {
            Hook::PreInstall => "pre_install",
            Hook::PostInstall => "post_install",
            Hook::PreUninstall => "pre_uninstall",
            Hook::PostUninstall => "post_uninstall",
        }
    }
}

/// What a script is told about its package.
#[derive(Clone, Debug)]
pub struct HookContext {
    /// The directory that the application is used from.
    pub dir: String,
    /// The directory of the application's version.
    pub original_dir: String,
    /// The directory of the application's persistent data.
    pub persist_dir: String,
    /// The command that the user gave.
    pub command: String,
    /// The architecture that is installed.
    pub architecture: String,
    /// The root directory of the installation.
    pub root_dir: String,
    /// The directory of downloaded files.
    pub cache_dir: String,
    /// The configuration file.
    pub config_path: String,
    /// The text of the manifest.
    pub manifest_json: String,
    /// The platform that the scripts run on.
    pub platform: Platform,
}

/// The directory below the root in which the versions of an application live.
pub open spec fn app_dir_of(
    on: Platform,
    root: Seq<char>,
    name: Seq<char>,
    version: Seq<char>,
) -> Seq<char> {
    join_of(on, join_of(on, join_of(on, root, "apps"@), name), version)
}

/// Returns the directory of a version of an application.
pub fn app_dir(on: Platform, root: &str, name: &str, version: &str) -> (r: String)
    ensures
        r@ == app_dir_of(on, root@, name@, version@),
{
    let apps = join(on, root, "apps");
    let app = join(on, apps.as_str(), name);
    join(on, app.as_str(), version)
}

/// The directory of an application's persistent data.
pub open spec fn persist_dir_of(on: Platform, root: Seq<char>, name: Seq<char>) -> Seq<char> {
    join_of(on, join_of(on, root, "persist"@), name)
}

/// Returns the directory of an application's persistent data.
pub fn persist_dir(on: Platform, root: &str, name: &str) -> (r: String)
    ensures
        r@ == persist_dir_of(on, root@, name@),
{
    let all = join(on, root, "persist");
    join(on, all.as_str(), name)
}

/// The directory that the application of a package is used from.
pub open spec fn used_dir_of(session: Session, package: Package) -> Seq<char> {
    app_dir_of(
        session.platform,
        session.config.root_path@,
        package.name@,
        if session.config.no_junction {
            package.version@
        } else {
            "current"@
        },
    )
}

/// The variables of a manifest with their values, in the order in which they are
/// replaced.
pub open spec fn variables_of(context: HookContext, version: Seq<char>, name: Seq<char>) -> Seq<
    (Seq<char>, Seq<char>),
> {
    seq![
        ("$original_dir"@, context.original_dir@),
        ("$persist_dir"@, context.persist_dir@),
        ("$architecture"@, context.architecture@),
        ("$version"@, version),
        ("$app"@, name),
        ("$cmd"@, context.command@),
        ("$global"@, "$false"@),
        ("$dir"@, context.dir@),
    ]
}

/// The text after the first `n` variables of a table were replaced one after the
/// other.
pub open spec fn replaced_first(
    value: Seq<char>,
    table: Seq<(Seq<char>, Seq<char>)>,
    n: nat,
) -> Seq<char>
    decreases n,
{
    if n == 0 {
        value
    } else {
        replaced(
            replaced_first(value, table, (n - 1) as nat),
            table[n - 1].0,
            table[n - 1].1,
        )
    }
}

/// A text with the variables of a manifest replaced by their values.
pub open spec fn expansion(
    context: HookContext,
    version: Seq<char>,
    name: Seq<char>,
    value: Seq<char>,
) -> Seq<char> {
    replaced_first(value, variables_of(context, version, name), 8)
}

impl HookContext {
    /// Whether this is what the scripts of a package are told in a session.
    pub open spec fn describes(
        self,
        session: Session,
        package: Package,
        command: Seq<char>,
        architecture: Seq<char>,
        manifest_json: Seq<char>,
    ) -> bool {
        &&& self.original_dir@ == app_dir_of(
            session.platform,
            session.config.root_path@,
            package.name@,
            package.version@,
        )
        &&& self.dir@ == used_dir_of(session, package)
        &&& self.persist_dir@ == persist_dir_of(
            session.platform,
            session.config.root_path@,
            package.name@,
        )
        &&& self.command@ == command
        &&& self.architecture@ == architecture
        &&& self.root_dir@ == session.config.root_path@
        &&& self.cache_dir@ == session.config.cache_path@
        &&& self.config_path@ == session.config.path@
        &&& self.manifest_json@ == manifest_json
        &&& self.platform == session.platform
    }

    /// Collects what the scripts of a package are told. `architecture` is the
    /// name of the installed architecture and `manifest_json` the text of the
    /// package's manifest.
    pub fn new(
        session: &Session,
        package: &Package,
        command: &str,
        architecture: &str,
        manifest_json: String,
    ) -> (r: HookContext)
        ensures
            r.describes(*session, *package, command@, architecture@, manifest_json@),
            r.manifest_json == manifest_json,
    {
        let config = &session.config;
        let on = session.platform;
        let root = config.root_path.as_str();
        let original_dir = app_dir(on, root, package.name.as_str(), package.version.as_str());
        let dir = if config.no_junction {
            original_dir.clone()
        } else {
            app_dir(on, root, package.name.as_str(), "current")
        };
        HookContext {
            dir,
            original_dir,
            persist_dir: persist_dir(on, root, package.name.as_str()),
            command: command.to_owned(),
            architecture: architecture.to_owned(),
            root_dir: config.root_path.clone(),
            cache_dir: config.cache_path.clone(),
            config_path: config.path.clone(),
            manifest_json,
            platform: on,
        }
    }

    /// Replaces the variables of a manifest in `value`.
    pub fn expand(&self, value: &str, package: &Package) -> (r: String)
        ensures
            r@ == expansion(*self, package.version@, package.name@, value@),
    {
        proof {
            reveal_strlit("$original_dir");
            reveal_strlit("$persist_dir");
            reveal_strlit("$architecture");
            reveal_strlit("$version");
            reveal_strlit("$app");
            reveal_strlit("$cmd");
            reveal_strlit("$global");
            reveal_strlit("$dir");
            reveal_with_fuel(replaced_first, 9);
        }
        let text = replace(value, "$original_dir", self.original_dir.as_str());
        let text = replace(text.as_str(), "$persist_dir", self.persist_dir.as_str());
        let text = replace(text.as_str(), "$architecture", self.architecture.as_str());
        let text = replace(text.as_str(), "$version", package.version.as_str());
        let text = replace(text.as_str(), "$app", package.name.as_str());
        let text = replace(text.as_str(), "$cmd", self.command.as_str());
        let text = replace(text.as_str(), "$global", "$false");
        replace(text.as_str(), "$dir", self.dir.as_str())
    }
}

/// The name of the file that a URL stands for. A fragment names the file; a URL
/// without one, or with a fragment that names nothing, is read up to its query.
pub open spec fn artifact_of(url: Seq<char>) -> Option<Seq<char>> {
    let fragment_name = match url.index_of_first('#') {
        Some(i) => after_last(url.skip(i + 1), '/'),
        None => Seq::empty(),
    };
    let path_name = after_last(before_first(before_first(url, '?'), '#'), '/');
    if fragment_name.len() > 0 {
        Some(fragment_name)
    } else if path_name.len() > 0 {
        Some(path_name)
    } else {
        None
    }
}

/// The error for a URL that names no file.
pub open spec fn no_filename(url: Seq<char>) -> ErrorView {
    around("could not determine filename from '"@, url, "'"@)
}

/// Returns the name of the file that a URL stands for.
pub fn artifact_name(url: &str) -> (r: Result<String, Error>)
    ensures
        text_result(r) == match artifact_of(url@) {
            Some(name) => Ok(name),
            None => Err(no_filename(url@)),
        },
{
    let chars = to_chars(url);
    let len: usize = chars.len();
    proof {
        url@.index_of_first_ensures('#');
    }
    if let Some(i) = find_first(&chars, 0, len, '#') {
        assert(url@.index_of_first('#') == Some(i as int));
        let start: usize = find_after_last(&chars, i + 1, len, '/');
        assert(chars@.subrange(i + 1, len as int) =~= url@.skip(i + 1));
        if start < len {
            return Ok(from_chars(&chars, start, len));
        }
    }
    let query: usize = find_before_first(&chars, len, '?');
    let end: usize = find_before_first(&chars, query, '#');
    let start: usize = find_after_last(&chars, 0, end, '/');
    assert(chars@.take(len as int) =~= url@);
    assert(chars@.subrange(0, end as int) =~= chars@.take(end as int));
    if start < end {
        Ok(from_chars(&chars, start, end))
    } else {
        Err(message_around("could not determine filename from '", url, "'"))
    }
}

/// The names of the files that URLs stand for, or the error for the first one
/// that names no file.
pub open spec fn artifacts_of(urls: Seq<Seq<char>>) -> Result<Seq<Seq<char>>, ErrorView>
    decreases urls.len(),
{
    if urls.len() == 0 {
        Ok(Seq::empty())
    } else {
        match artifacts_of(urls.drop_last()) {
            Err(error) => Err(error),
            Ok(names) => match artifact_of(urls.last()) {
                Some(name) => Ok(names.push(name)),
                None => Err(no_filename(urls.last())),
            },
        }
    }
}

/// An error among the first URLs is the error of all of them.
proof fn lemma_artifacts_error(urls: Seq<Seq<char>>, k: int)
    requires
        0 <= k <= urls.len(),
        artifacts_of(urls.take(k)) is Err,
    ensures
        artifacts_of(urls) == artifacts_of(urls.take(k)),
    decreases urls.len(),
{
    if k < urls.len() {
        assert(urls.drop_last().take(k) =~= urls.take(k));
        lemma_artifacts_error(urls.drop_last(), k);
    } else {
        assert(urls.take(k) =~= urls);
    }
}

/// Returns the names of the files that URLs stand for.
pub fn artifact_names(urls: &Vec<String>) -> (r: Result<Vec<String>, Error>)
    ensures
        match r {
            Ok(names) => artifacts_of(views(urls@)) == Ok::<Seq<Seq<char>>, ErrorView>(
                views(names@),
            ),
            Err(error) => artifacts_of(views(urls@)) == Err::<Seq<Seq<char>>, ErrorView>(error@),
        },
{
    let ghost all = views(urls@);
    let mut names: Vec<String> = Vec::new();
    assert(views(names@) =~= Seq::<Seq<char>>::empty());
    let mut i: usize = 0;
    while i < urls.len()
        invariant
            i <= urls@.len(),
            all == views(urls@),
            artifacts_of(all.take(i as int)) == Ok::<Seq<Seq<char>>, ErrorView>(views(names@)),
        decreases urls@.len() - i,
    {
        let ghost shown = all.take(i + 1);
        assert(shown.drop_last() =~= all.take(i as int));
        assert(shown.last() == urls@[i as int]@);
        let ghost before = names@;
        match artifact_name(urls[i].as_str()) {
            Ok(name) => {
                names.push(name);
                assert(views(names@) =~= views(before).push(name@));
            },
            Err(error) => {
                proof {
                    lemma_artifacts_error(all, i + 1);
                }
                return Err(error);
            },
        }
        i = i + 1;
    }
    assert(all.take(i as int) =~= all);
    Ok(names)
}

/// The variables of the host that locate older and global installations.
#[derive(Debug)]
pub struct HostVariables {
    /// `SCOOP_GLOBAL`
    pub scoop_global: Option<String>,
    /// `ProgramData`
    pub program_data: Option<String>,
    /// `LOCALAPPDATA`
    pub local_app_data: Option<String>,
}

impl HostVariables {
    /// The directory of global installations.
    pub open spec fn global_dir_of(self, on: Platform) -> Seq<char> {
        match (self.scoop_global, self.program_data) {
            (Some(dir), _) => dir@,
            (None, Some(data)) => join_of(on, data@, "scoop"@),
            (None, None) => "C:\\ProgramData\\scoop"@,
        }
    }

    /// The directory that older installers used.
    pub open spec fn old_scoop_dir_of(self, on: Platform) -> Seq<char> {
        match self.local_app_data {
            Some(data) => join_of(on, data@, "scoop"@),
            None => join_of(on, Seq::empty(), "scoop"@),
        }
    }

    /// Returns the directory of global installations.
    pub fn global_dir(&self, on: Platform) -> (r: String)
        ensures
            r@ == self.global_dir_of(on),
    {
        match &self.scoop_global {
            Some(dir) => dir.clone(),
            None => match &self.program_data {
                Some(data) => join(on, data.as_str(), "scoop"),
                None => "C:\\ProgramData\\scoop".to_owned(),
            },
        }
    }

    /// Returns the directory that older installers used.
    pub fn old_scoop_dir(&self, on: Platform) -> (r: String)
        ensures
            r@ == self.old_scoop_dir_of(on),
    {
        match &self.local_app_data {
            Some(data) => join(on, data.as_str(), "scoop"),
            None => {
                let none = String::new();
                join(on, none.as_str(), "scoop")
            },
        }
    }
}

/// The hexadecimal digit of a number below sixteen.
pub open spec fn hex_digit(d: nat) -> char {
    if d < 10 {
        digit(d)
    } else {
        (('a' as u8) + (d - 10)) as char
    }
}

/// How a character is written inside a JSON string: quotes, backslashes and
/// control characters are escaped, every other character stands for itself.
pub open spec fn json_char(c: char) -> Seq<char> {
    if c == '"' || c == '\\' {
        seq!['\\', c]
    } else if c == '\u{8}' {
        seq!['\\', 'b']
    } else if c == '\t' {
        seq!['\\', 't']
    } else if c == '\n' {
        seq!['\\', 'n']
    } else if c == '\u{C}' {
        seq!['\\', 'f']
    } else if c == '\r' {
        seq!['\\', 'r']
    } else if (c as nat) < 0x20 {
        seq!['\\', 'u', '0', '0', hex_digit((c as nat) / 16), hex_digit((c as nat) % 16)]
    } else {
        seq![c]
    }
}

/// The characters between the quotes of a JSON string.
pub open spec fn json_chars(text: Seq<char>) -> Seq<char>
    decreases text.len(),
{
    if text.len() == 0 {
        Seq::empty()
    } else {
        json_chars(text.drop_last()) + json_char(text.last())
    }
}

/// The JSON text of a list of strings, without spaces.
pub open spec fn json_array(list: Seq<Seq<char>>) -> Seq<char> {
    let strings = list.map_values(|s: Seq<char>| seq!['"'] + json_chars(s) + seq!['"']);
    seq!['['] + joined(strings, seq![',']) + seq![']']
}

/// Calls `serde_json::to_string` on a list of strings. It writes the compact
/// JSON text of the list. Writing strings into memory does not fail.
#[verifier::external_body]
fn to_json(list: &Vec<String>) -> (r: Option<String>)
    ensures
        r is Some,
        r->0@ == json_array(views(list@)),
{
    serde_json::to_string(list).ok()
}

/// The variables that a script of a package finds set. `filenames` is the JSON
/// list of the downloaded files.
pub open spec fn environment_of(
    context: HookContext,
    package: Package,
    host: HostVariables,
    filenames: Seq<char>,
) -> Seq<(Seq<char>, Seq<char>)> {
    seq![
        ("HOK_APP"@, package.name@),
        ("HOK_VERSION"@, package.version@),
        ("HOK_ARCHITECTURE"@, context.architecture@),
        ("HOK_COMMAND"@, context.command@),
        ("HOK_DIR"@, context.dir@),
        ("HOK_ORIGINAL_DIR"@, context.original_dir@),
        ("HOK_PERSIST_DIR"@, context.persist_dir@),
        ("HOK_SCOOP_DIR"@, context.root_dir@),
        ("HOK_GLOBAL_DIR"@, host.global_dir_of(context.platform)),
        ("HOK_CACHE_DIR"@, context.cache_dir@),
        ("HOK_BUCKETS_DIR"@, join_of(context.platform, context.root_dir@, "buckets"@)),
        ("HOK_MODULES_DIR"@, join_of(context.platform, context.root_dir@, "modules"@)),
        ("HOK_CONFIG_PATH"@, context.config_path@),
        ("HOK_OLD_SCOOP_DIR"@, host.old_scoop_dir_of(context.platform)),
        ("HOK_FILENAMES"@, filenames),
    ]
}

impl HookContext {
    /// Returns the variables that a script of a package finds set, given the
    /// JSON list of the downloaded files.
    pub fn environment_with(
        &self,
        package: &Package,
        host: &HostVariables,
        filenames: &str,
    ) -> (r: Vec<(String, String)>)
        ensures
            pair_views(r@) == environment_of(*self, *package, *host, filenames@),
    {
        let global_dir = host.global_dir(self.platform);
        let old_scoop_dir = host.old_scoop_dir(self.platform);
        let buckets_dir = join(self.platform, self.root_dir.as_str(), "buckets");
        let modules_dir = join(self.platform, self.root_dir.as_str(), "modules");
        let mut out: Vec<(String, String)> = Vec::new();
        assert(pair_views(out@) =~= Seq::<(Seq<char>, Seq<char>)>::empty());
        push_pair(&mut out, "HOK_APP", package.name.as_str());
        push_pair(&mut out, "HOK_VERSION", package.version.as_str());
        push_pair(&mut out, "HOK_ARCHITECTURE", self.architecture.as_str());
        push_pair(&mut out, "HOK_COMMAND", self.command.as_str());
        push_pair(&mut out, "HOK_DIR", self.dir.as_str());
        push_pair(&mut out, "HOK_ORIGINAL_DIR", self.original_dir.as_str());
        push_pair(&mut out, "HOK_PERSIST_DIR", self.persist_dir.as_str());
        push_pair(&mut out, "HOK_SCOOP_DIR", self.root_dir.as_str());
        push_pair(&mut out, "HOK_GLOBAL_DIR", global_dir.as_str());
        push_pair(&mut out, "HOK_CACHE_DIR", self.cache_dir.as_str());
        push_pair(&mut out, "HOK_BUCKETS_DIR", buckets_dir.as_str());
        push_pair(&mut out, "HOK_MODULES_DIR", modules_dir.as_str());
        push_pair(&mut out, "HOK_CONFIG_PATH", self.config_path.as_str());
        push_pair(&mut out, "HOK_OLD_SCOOP_DIR", old_scoop_dir.as_str());
        push_pair(&mut out, "HOK_FILENAMES", filenames);
        assert(pair_views(out@) =~= environment_of(*self, *package, *host, filenames@));
        out
    }

    /// Returns the variables that a script of a package finds set. It fails
    /// where a URL of the package names no file.
    pub fn environment(&self, package: &Package, host: &HostVariables) -> (r: Result<
        Vec<(String, String)>,
        Error,
    >)
        ensures
            match artifacts_of(views(package.manifest.url@)) {
                Ok(names) => r matches Ok(list) && pair_views(list@) == environment_of(
                    *self,
                    *package,
                    *host,
                    json_array(names),
                ),
                Err(error) => r matches Err(e) && e@ == error,
            },
    {
        match artifact_names(&package.manifest.url) {
            Ok(names) => match to_json(&names) {
                Some(text) => Ok(self.environment_with(package, host, text.as_str())),
                None => Err(Error::Json),
            },
            Err(error) => Err(error),
        }
    }
}

/// A script that is ready to run.
#[derive(Debug)]
pub struct Script {
    /// What the script is for.
    pub label: String,
    /// Its text.
    pub source: String,
    /// The variables that it finds set.
    pub environment: Vec<(String, String)>,
}

/// A script, over the characters of its texts.
pub struct ScriptView {
    pub label: Seq<char>,
    pub source: Seq<char>,
    pub environment: Seq<(Seq<char>, Seq<char>)>,
}

impl View for Script {
    type V = ScriptView;

    open spec fn view(&self) -> ScriptView {
        ScriptView {
            label: self.label@,
            source: self.source@,
            environment: pair_views(self.environment@),
        }
    }
}

/// The lines that a package has for a hook.
pub open spec fn lines_of(package: Package, hook: Hook) -> Option<Vec<String>> {
    match hook {
        Hook::PreInstall => package.manifest.pre_install,
        Hook::PostInstall => package.manifest.post_install,
        Hook::PreUninstall => package.manifest.pre_uninstall,
        Hook::PostUninstall => package.manifest.post_uninstall,
    }
}

/// The text of a hook script: the prelude, the manifest as a quoted literal and
/// the lines of the hook.
pub open spec fn source_of(lines: Seq<Seq<char>>, manifest_json: Seq<char>) -> Seq<char> {
    POWERSHELL_PRELUDE@ + "\r\n$manifest = '"@ + replaced(manifest_json, "'"@, "''"@)
        + "' | ConvertFrom-Json\r\n"@ + joined(lines, "\r\n"@) + "\r\n"@
}

/// Returns the text of a hook script.
pub fn hook_source(lines: &Vec<String>, manifest_json: &str) -> (r: String)
    ensures
        r@ == source_of(views(lines@), manifest_json@),
{
    proof {
        reveal_strlit("'");
    }
    let quoted = replace(manifest_json, "'", "''");
    let body = join_lines(lines, "\r\n");
    let mut source = POWERSHELL_PRELUDE.to_owned();
    source.append("\r\n$manifest = '");
    source.append(quoted.as_str());
    source.append("' | ConvertFrom-Json\r\n");
    source.append(body.as_str());
    source.append("\r\n");
    source
}

/// What a hook script is labelled with.
pub open spec fn label_of(name: Seq<char>, hook: Hook) -> Seq<char> {
    name + "-"@ + hook.name_of()
}

/// The script that a package runs at a hook, or the error for a URL that names no file.
pub open spec fn hook_script(
    package: Package,
    hook: Hook,
    context: HookContext,
    host: HostVariables,
) -> Result<Option<ScriptView>, ErrorView> {
    match lines_of(package, hook) {
        None => Ok(None),
        Some(lines) => match artifacts_of(views(package.manifest.url@)) {
            Ok(names) => Ok(
                Some(
                    ScriptView {
                        label: label_of(package.name@, hook),
                        source: source_of(views(lines@), context.manifest_json@),
                        environment: environment_of(context, package, host, json_array(names)),
                    },
                ),
            ),
            Err(error) => Err(error),
        },
    }
}

/// The result of a step that may give a script.
pub open spec fn script_result(r: Result<Option<Script>, Error>) -> Result<
    Option<ScriptView>,
    ErrorView,
> {
    match r {
        Ok(Some(script)) => Ok(Some(script@)),
        Ok(None) => Ok(None),
        Err(error) => Err(error@),
    }
}

/// Prepares the script that a package runs at a hook; there is none where the
/// manifest has no lines for it.
pub fn run_hook(
    package: &Package,
    hook: Hook,
    context: &HookContext,
    host: &HostVariables,
) -> (r: Result<Option<Script>, Error>)
    ensures
        script_result(r) == hook_script(*package, hook, *context, *host),
{
    let lines = match hook {
        Hook::PreInstall => &package.manifest.pre_install,
        Hook::PostInstall => &package.manifest.post_install,
        Hook::PreUninstall => &package.manifest.pre_uninstall,
        Hook::PostUninstall => &package.manifest.post_uninstall,
    };
    match lines {
        None => Ok(None),
        Some(lines) => {
            let source = hook_source(lines, context.manifest_json.as_str());
            let mut label = package.name.clone();
            label.append("-");
            label.append(hook.name());
            match context.environment(package, host) {
                Ok(environment) => Ok(Some(Script { label, source, environment })),
                Err(error) => Err(error),
            }
        },
    }
}

/// The error for a hook script that failed.
pub open spec fn hook_failure(name: Seq<char>, hook: Hook, error: Seq<char>) -> ErrorView {
    ErrorView::Custom(hook.name_of() + " hook failed for '"@ + name + "': "@ + error)
}

/// Builds the error for a hook script that failed with the message `error`.
pub fn hook_error(package: &Package, hook: Hook, error: &str) -> (r: Error)
    ensures
        r@ == hook_failure(package.name@, hook, error@),
{
    let mut message = hook.name().to_owned();
    message.append(" hook failed for '");
    message.append(package.name.as_str());
    message.append("': ");
    message.append(error);
    Error::Custom(message)
}

/// A script file and the command that runs it.
#[derive(Debug)]
pub struct PowershellRun {
    /// The program to start.
    pub executable: String,
    /// What stands in front of the script's path on the command line.
    pub arguments: Vec<String>,
    /// The name of the script file.
    pub file_name: String,
    /// The contents of the script file.
    pub bytes: Vec<u8>,
}

/// The program that runs scripts.
pub open spec fn executable_of(on: Platform) -> Seq<char> {
    match on {
        Platform::Windows => "powershell.exe"@,
        Platform::Unix => "pwsh"@,
    }
}

/// Returns the program that runs scripts.
pub fn powershell_executable(on: Platform) -> (r: &'static str)
    ensures
        r@ == executable_of(on),
{
    match on {
        Platform::Windows => "powershell.exe",
        Platform::Unix => "pwsh",
    }
}

/// What stands in front of the script's path on the command line.
pub open spec fn arguments_of() -> Seq<Seq<char>> {
    seq![
        "-NoLogo"@,
        "-NoProfile"@,
        "-NonInteractive"@,
        "-ExecutionPolicy"@,
        "Bypass"@,
        "-File"@,
    ]
}

fn push_text(list: &mut Vec<String>, text: &str)
    ensures
        views(final(list)@) == views(old(list)@).push(text@),
{
    list.push(text.to_owned());
    assert(views(list@) =~= views(old(list)@).push(text@));
}

/// The contents of a script file: the text in UTF-8 behind a byte order mark.
pub open spec fn script_bytes(source: Seq<char>) -> Seq<u8> {
    seq![0xEFu8, 0xBBu8, 0xBFu8] + vstd::utf8::encode_utf8(source)
}

/// The name of a script file.
pub open spec fn script_file_of(label: Seq<char>, process_id: nat, script_id: nat) -> Seq<char> {
    "hok-"@ + label + "-"@ + decimal(process_id) + "-"@ + decimal(script_id) + ".ps1"@
}

/// Prepares the run of a script. `file_label` is the label in a form that a
/// file name can hold; the two numbers tell scripts apart.
pub fn prepare_powershell(
    file_label: &str,
    source: &str,
    process_id: u32,
    script_id: u64,
    on: Platform,
) -> (r: PowershellRun)
    ensures
        r.executable@ == executable_of(on),
        views(r.arguments@) == arguments_of(),
        r.file_name@ == script_file_of(file_label@, process_id as nat, script_id as nat),
        r.bytes@ == script_bytes(source@),
{
    let mut file_name = "hok-".to_owned();
    file_name.append(file_label);
    file_name.append("-");
    file_name.append(to_decimal(process_id as u64).as_str());
    file_name.append("-");
    file_name.append(to_decimal(script_id).as_str());
    file_name.append(".ps1");
    let mut bytes: Vec<u8> = Vec::new();
    bytes.push(0xEF);
    bytes.push(0xBB);
    bytes.push(0xBF);
    let ghost mark = bytes@;
    bytes.extend_from_slice(source.as_bytes());
    assert(bytes@ =~= mark + vstd::utf8::encode_utf8(source@));
    assert(mark =~= seq![0xEFu8, 0xBBu8, 0xBFu8]);
    let mut arguments: Vec<String> = Vec::new();
    assert(views(arguments@) =~= Seq::<Seq<char>>::empty());
    push_text(&mut arguments, "-NoLogo");
    push_text(&mut arguments, "-NoProfile");
    push_text(&mut arguments, "-NonInteractive");
    push_text(&mut arguments, "-ExecutionPolicy");
    push_text(&mut arguments, "Bypass");
    push_text(&mut arguments, "-File");
    assert(views(arguments@) =~= arguments_of());
    PowershellRun {
        executable: powershell_executable(on).to_owned(),
        arguments,
        file_name,
        bytes,
    }
}

/// An action of the run of a script.
#[derive(Debug, PartialEq, Eq)]
pub enum PowershellAction {
    /// Write the script file. Where that fails, nothing follows.
    Write { file_name: String, bytes: Vec<u8> },
    /// Run the program on the script file, with variables added to its own. The
    /// next action follows however that ends, also where it does not start.
    Run {
        executable: String,
        arguments: Vec<String>,
        file_name: String,
        environment: Vec<(String, String)>,
    },
    /// Remove the script file; it does not matter whether that works.
    Remove { file_name: String },
}

/// An action, over the characters of its texts.
pub enum PowershellActionView {
    Write { file_name: Seq<char>, bytes: Seq<u8> },
    Run {
        executable: Seq<char>,
        arguments: Seq<Seq<char>>,
        file_name: Seq<char>,
        environment: Seq<(Seq<char>, Seq<char>)>,
    },
    Remove { file_name: Seq<char> },
}

impl View for PowershellAction {
    type V = PowershellActionView;

    open spec fn view(&self) -> PowershellActionView {
        match self {
            PowershellAction::Write { file_name, bytes } => PowershellActionView::Write {
                file_name: file_name@,
                bytes: bytes@,
            },
            PowershellAction::Run { executable, arguments, file_name, environment } => {
                PowershellActionView::Run {
                    executable: executable@,
                    arguments: views(arguments@),
                    file_name: file_name@,
                    environment: pair_views(environment@),
                }
            },
            PowershellAction::Remove { file_name } => PowershellActionView::Remove {
                file_name: file_name@,
            },
        }
    }
}

/// The contents of a list of actions.
pub open spec fn powershell_actions(list: Seq<PowershellAction>) -> Seq<PowershellActionView> {
    list.map_values(|a: PowershellAction| a@)
}

/// Whether the run goes on behind an action: only a failed write ends it.
pub open spec fn goes_on(action: PowershellActionView, failed: bool) -> bool {
    !(failed && action is Write)
}

/// Decides whether the run goes on behind an action.
pub fn run_goes_on(action: &PowershellAction, failed: bool) -> (r: bool)
    ensures
        r == goes_on(action@, failed),
{
    !(failed && matches!(action, PowershellAction::Write { .. }))
}

/// How a script is run: its file is written, run and removed.
pub open spec fn powershell_steps(
    file_name: Seq<char>,
    source: Seq<char>,
    environment: Seq<(Seq<char>, Seq<char>)>,
    on: Platform,
) -> Seq<PowershellActionView> {
    seq![
        PowershellActionView::Write { file_name, bytes: script_bytes(source) },
        PowershellActionView::Run {
            executable: executable_of(on),
            arguments: arguments_of(),
            file_name,
            environment,
        },
        PowershellActionView::Remove { file_name },
    ]
}

/// Plans the run of a script. `file_label` is the label in a form that a file
/// name can hold; the two numbers tell scripts apart. `powershell_result` judges
/// how the run ended.
pub fn run_powershell(
    file_label: &str,
    source: &str,
    environment: Vec<(String, String)>,
    process_id: u32,
    script_id: u64,
    on: Platform,
) -> (r: Vec<PowershellAction>)
    ensures
        powershell_actions(r@) == powershell_steps(
            script_file_of(file_label@, process_id as nat, script_id as nat),
            source@,
            pair_views(environment@),
            on,
        ),
{
    let run = prepare_powershell(file_label, source, process_id, script_id, on);
    let mut out: Vec<PowershellAction> = Vec::new();
    out.push(PowershellAction::Write { file_name: run.file_name.clone(), bytes: run.bytes });
    out.push(
        PowershellAction::Run {
            executable: run.executable,
            arguments: run.arguments,
            file_name: run.file_name.clone(),
            environment,
        },
    );
    out.push(PowershellAction::Remove { file_name: run.file_name });
    assert(powershell_actions(out@) =~= powershell_steps(
        script_file_of(file_label@, process_id as nat, script_id as nat),
        source@,
        pair_views(environment@),
        on,
    ));
    out
}

/// How the run of a script ended.
#[derive(Debug)]
pub enum Outcome {
    /// The program could not be started, for this reason.
    NotStarted(String),
    /// The program ended.
    Exited {
        /// Whether it reported success.
        success: bool,
        /// The status that it reported.
        status: String,
    },
}

/// The error of the run of a script, where it failed.
pub open spec fn failure_of(label: Seq<char>, outcome: Outcome) -> Option<ErrorView> {
    match outcome {
        Outcome::NotStarted(reason) => Some(
            ErrorView::Custom("could not start PowerShell for "@ + label + ": "@ + reason@),
        ),
        Outcome::Exited { success, status } => if success {
            None
        } else {
            Some(ErrorView::Custom("PowerShell for "@ + label + " exited with "@ + status@))
        },
    }
}

/// Judges how the run of a script ended.
pub fn powershell_result(label: &str, outcome: &Outcome) -> (r: Result<(), Error>)
    ensures
        failure_of(label@, *outcome) == match r {
            Ok(_) => None,
            Err(error) => Some(error@),
        },
{
    match outcome {
        Outcome::NotStarted(reason) => {
            let mut message = "could not start PowerShell for ".to_owned();
            message.append(label);
            message.append(": ");
            message.append(reason.as_str());
            Err(Error::Custom(message))
        },
        Outcome::Exited { success, status } => {
            if *success {
                Ok(())
            } else {
                let mut message = "PowerShell for ".to_owned();
                message.append(label);
                message.append(" exited with ");
                message.append(status.as_str());
                Err(Error::Custom(message))
            }
        },
    }
}

/// The name that manifests use for a processor architecture.
pub open spec fn architecture_of(target: Seq<char>) -> Seq<char> {
    if target == "x86_64"@ {
        "64bit"@
    } else if target == "aarch64"@ {
        "arm64"@
    } else {
        "32bit"@
    }
}

/// Returns the name that manifests use for the processor architecture `target`.
pub fn current_architecture(target: &str) -> (r: &'static str)
    ensures
        r@ == architecture_of(target@),
{
    let target = target.to_owned();
    if target == "x86_64".to_owned() {
        "64bit"
    } else if target == "aarch64".to_owned() {
        "arm64"
    } else {
        "32bit"
    }
}

} // verus!
