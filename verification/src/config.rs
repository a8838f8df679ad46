//! The library's configuration: the configured roots and the store that
//! holds them, with the rule that decides which root a path falls under.

use crate::paths::{file_name, file_name_of, path_starts_with, within_in, PathStyle};
use vstd::prelude::*;
use vstd::string::StringExecFns;

verus! {

/// One configured root directory.
pub struct RootConfig {
    /// Display name (used to group the sidebar).
    pub name: String,
    /// Absolute path of the directory.
    pub path: String,
    /// Optional URL prefix under which the root is shared on the network,
    /// e.g. `http://192.168.1.10/projects`.
    pub url_base: Option<String>,
}

/// What a `RootConfig` holds, as text.
pub struct RootView {
    pub name: Seq<char>,
    pub path: Seq<char>,
    pub url_base: Option<Seq<char>>,
}

/// The text an optional string holds.
pub open spec fn opt_text(o: Option<String>) -> Option<Seq<char>> {
    match o {
        Some(s) => Some(s@),
        None => None,
    }
}

impl View for RootConfig {
    type V = RootView;

    open spec fn view(&self) -> RootView {
        RootView { name: self.name@, path: self.path@, url_base: opt_text(self.url_base) }
    }
}

/// The whole configuration: the list of roots, in order.
pub struct AppConfig {
    pub roots: Vec<RootConfig>,
}

/// The roots of a list of root configurations, as text.
pub open spec fn roots_view(roots: Seq<RootConfig>) -> Seq<RootView> {
    roots.map_values(|r: RootConfig| r@)
}

impl View for AppConfig {
    type V = Seq<RootView>;

    open spec fn view(&self) -> Seq<RootView> {
        roots_view(self.roots@)
    }
}

/// The index of the first root that `target` lies within, if any, with
/// paths read in `style`.
pub open spec fn root_index_for(style: PathStyle, roots: Seq<RootView>, target: Seq<char>) -> Option<int>
    decreases roots.len(),
{
    if roots.len() == 0 {
        None
    } else if within_in(style, target, roots[0].path) {
        Some(0)
    } else {
        match root_index_for(style, roots.skip(1), target) {
            Some(i) => Some(i + 1),
            None => None,
        }
    }
}

/// `root_index_for` finds the first root that contains the target, and
/// finds none exactly when no root contains it.
pub proof fn lemma_root_index_for(style: PathStyle, roots: Seq<RootView>, target: Seq<char>)
    ensures
        match root_index_for(style, roots, target) {
            Some(i) => 0 <= i < roots.len() && within_in(style, target, roots[i].path) && forall|j: int|
                0 <= j < i ==> !within_in(style, target, #[trigger] roots[j].path),
            None => forall|j: int| 0 <= j < roots.len() ==> !within_in(style, target, #[trigger] roots[j].path),
        },
    decreases roots.len(),
{
    if roots.len() > 0 && !within_in(style, target, roots[0].path) {
        lemma_root_index_for(style, roots.skip(1), target);
        match root_index_for(style, roots.skip(1), target) {
            Some(i) => {
                assert forall|j: int| 0 <= j < i + 1 implies !within_in(
                    style,
                    target,
                    #[trigger] roots[j].path,
                ) by {
                    if j > 0 {
                        assert(roots[j] == roots.skip(1)[j - 1]);
                    }
                }
            },
            None => {
                assert forall|j: int| 0 <= j < roots.len() implies !within_in(
                    style,
                    target,
                    #[trigger] roots[j].path,
                ) by {
                    if j > 0 {
                        assert(roots[j] == roots.skip(1)[j - 1]);
                    }
                }
            },
        }
    }
}

/// A copy of an optional string.
fn copy_opt(o: &Option<String>) -> (res: Option<String>)
    ensures
        opt_text(res) == opt_text(*o),
{
    match o {
        Some(s) => Some(s.clone()),
        None => None,
    }
}

impl RootConfig {
    /// A copy of this root.
    pub fn copy(&self) -> (res: RootConfig)
        ensures
            res@ == self@,
    {
        RootConfig { name: self.name.clone(), path: self.path.clone(), url_base: copy_opt(&self.url_base) }
    }
}

impl AppConfig {
    /// A copy of this configuration.
    pub fn copy(&self) -> (res: AppConfig)
        ensures
            res@ == self@,
    {
        let mut roots: Vec<RootConfig> = Vec::new();
        let mut i: usize = 0;
        while i < self.roots.len()
            invariant
                i <= self.roots.len(),
                roots_view(roots@) =~= roots_view(self.roots@).take(i as int),
            decreases self.roots.len() - i,
        {
            let ghost before = roots@;
            let c = self.roots[i].copy();
            roots.push(c);
            assert(roots_view(roots@) =~= roots_view(before).push(c@));
            assert(roots_view(self.roots@).take(i + 1) =~= roots_view(self.roots@).take(
                i as int,
            ).push(self.roots@[i as int]@));
            i = i + 1;
        }
        assert(roots_view(self.roots@).take(self.roots.len() as int) =~= roots_view(self.roots@));
        AppConfig { roots }
    }
}

/// The default configuration: one root, the user's home directory (or `/`
/// when it is unknown), named `User` on Windows and after the home
/// directory's last component elsewhere (`home` when it has none, or when
/// that component is not valid Unicode: `name_readable` is false).
pub open spec fn default_config_view(
    home: Option<Seq<char>>,
    name_readable: bool,
    is_windows: bool,
) -> Seq<RootView> {
    let path = match home {
        Some(h) => h,
        None => "/"@,
    };
    let name = if is_windows {
        "User"@
    } else {
        match file_name_of(path) {
            Some(n) => if name_readable {
                n
            } else {
                "home"@
            },
            None => "home"@,
        }
    };
    seq![RootView { name, path, url_base: None }]
}

/// The default configuration for the given home directory; `name_readable`
/// tells whether its last component is valid Unicode (where it is not,
/// `home` holds a lossy rendering of the path).
pub fn default_config(home: Option<String>, name_readable: bool, is_windows: bool) -> (res: AppConfig)
    ensures
        res@ == default_config_view(opt_text(home), name_readable, is_windows),
{
    let path = match home {
        Some(h) => h,
        None => String::from_str("/"),
    };
    let name = if is_windows {
        String::from_str("User")
    } else {
        match file_name(PathStyle::Unix, path.as_str()) {
            Some(n) => if name_readable {
                n
            } else {
                String::from_str("home")
            },
            None => String::from_str("home"),
        }
    };
    let mut roots: Vec<RootConfig> = Vec::new();
    roots.push(RootConfig { name, path, url_base: None });
    let res = AppConfig { roots };
    assert(res@ =~= default_config_view(opt_text(home), name_readable, is_windows));
    res
}

/// The configuration held by the running application, the file it is kept
/// in, and how the platform writes paths.
pub struct ConfigStore {
    inner: AppConfig,
    file: String,
    style: PathStyle,
}

impl ConfigStore {
    /// The roots currently held.
    pub closed spec fn config(&self) -> Seq<RootView> {
        self.inner@
    }

    /// The file the configuration is kept in.
    pub closed spec fn file(&self) -> Seq<char> {
        self.file@
    }

    /// How paths are read.
    pub closed spec fn style(&self) -> PathStyle {
        self.style
    }

    /// A store holding `config`, kept in `file`, reading paths in `style`.
    pub fn new(config: AppConfig, file: String, style: PathStyle) -> (res: ConfigStore)
        ensures
            res.config() == config@,
            res.file() == file@,
            res.style() == style,
    {
        ConfigStore { inner: config, file, style }
    }

    /// How paths are read.
    pub fn path_style(&self) -> (res: PathStyle)
        ensures
            res == self.style(),
    {
        self.style
    }

    /// The file the configuration is kept in.
    pub fn file_path(&self) -> (res: &String)
        ensures
            res@ == self.file(),
    {
        &self.file
    }

    /// A copy of the configuration currently held.
    pub fn snapshot(&self) -> (res: AppConfig)
        ensures
            res@ == self.config(),
    {
        self.inner.copy()
    }

    /// Replaces the configuration held once `new_cfg` has been written to
    /// the file: `saved` is the outcome of that write. When it failed, the
    /// store keeps what it held and the error is handed back.
    pub fn replace(&mut self, new_cfg: AppConfig, saved: Result<(), String>) -> (res: Result<(), String>)
        ensures
            saved is Ok ==> res is Ok && final(self).config() == new_cfg@,
            saved matches Err(e) ==> res matches Err(r) && r@ == e@ && final(self).config() == old(
                self,
            ).config(),
            final(self).file() == old(self).file(),
            final(self).style() == old(self).style(),
    {
        match saved {
            Ok(()) => {
                self.inner = new_cfg;
                Ok(())
            },
            Err(e) => Err(e),
        }
    }

    /// The first configured root that `target` lies within, if any.
    pub fn resolve_within_roots(&self, target: &str) -> (res: Option<RootConfig>)
        ensures
            match root_index_for(self.style(), self.config(), target@) {
                Some(i) => res matches Some(r) && r@ == self.config()[i],
                None => res is None,
            },
    {
        let roots = &self.inner.roots;
        let ghost rv = roots_view(roots@);
        let mut i: usize = 0;
        assert(rv.skip(0) =~= rv);
        while i < roots.len()
            invariant
                i <= roots.len(),
                rv == roots_view(roots@),
                rv == self.config(),
                root_index_for(self.style, rv, target@) == match root_index_for(
                    self.style,
                    rv.skip(i as int),
                    target@,
                ) {
                    Some(k) => Some(k + i),
                    None => None,
                },
            decreases roots.len() - i,
        {
            assert(rv.skip(i as int)[0] == rv[i as int]);
            if path_starts_with(self.style, target, roots[i].path.as_str()) {
                return Some(roots[i].copy());
            }
            assert(rv.skip(i as int).skip(1) =~= rv.skip(i + 1));
            i = i + 1;
        }
        None
    }
}

/// The error text for a path outside every configured root.
pub open spec fn outside_roots_message(p: Seq<char>) -> Seq<char> {
    "path not within any configured root: "@ + p
}

/// Accepts `p` when it lies within some configured root, and otherwise
/// refuses it with a message that names it.
pub fn ensure_within_roots(store: &ConfigStore, p: &str) -> (res: Result<(), String>)
    ensures
        res is Ok <==> root_index_for(store.style(), store.config(), p@) is Some,
        res matches Err(m) ==> m@ == outside_roots_message(p@),
{
    if store.resolve_within_roots(p).is_none() {
        let m = String::from_str("path not within any configured root: ").concat(p);
        return Err(m);
    }
    Ok(())
}

} // verus!
