//! Well-known on-disk locations, derived from the user's home directory.
//!
//! Paths are held as plain strings; joining follows the rule that an
//! absolute right-hand side replaces the base entirely.

use vstd::prelude::*;

verus! {

/// The result of appending `name` under `base`: `base + "/" + name`,
/// except that an absolute `name` (leading `'/'`) stands on its own.
pub open spec fn spec_join(base: Seq<char>, name: Seq<char>) -> Seq<char> {
    if name.len() > 0 && name[0] == '/' {
        name
    } else {
        base + seq!['/'] + name
    }
}

/// A name free of the path separator: one directory-entry name, not a
/// deeper path.
pub open spec fn no_slash(name: Seq<char>) -> bool {
    forall|i: int| 0 <= i < name.len() ==> name[i] != '/'
}

/// Law: joining separator-free names onto bases never collides: equal
/// results come from the same base and the same name.
pub proof fn lemma_join_eq(a: Seq<char>, b: Seq<char>, x: Seq<char>, y: Seq<char>)
    requires
        no_slash(x),
        no_slash(y),
        spec_join(a, x) == spec_join(b, y),
    ensures
        a == b,
        x == y,
{
    reveal_strlit("/");
    let l = spec_join(a, x);
    let r = spec_join(b, y);
    assert(x.len() > 0 ==> x[0] != '/');
    assert(y.len() > 0 ==> y[0] != '/');
    assert(l == (a + seq!['/']) + x);
    assert(r == (b + seq!['/']) + y);
    assert(l.len() == a.len() + 1 + x.len());
    if a.len() < b.len() {
        let p = b.len() as int;
        assert(r[p] == '/');
        assert(l[p] == x[p - a.len() - 1]);
        assert(x[p - a.len() - 1] != '/');
    } else if b.len() < a.len() {
        let p = a.len() as int;
        assert(l[p] == '/');
        assert(r[p] == y[p - b.len() - 1]);
        assert(y[p - b.len() - 1] != '/');
    } else {
        assert(a =~= b) by {
            assert forall|i: int| 0 <= i < a.len() implies a[i] == b[i] by {
                assert(l[i] == a[i]);
                assert(r[i] == b[i]);
            }
        }
        assert(x =~= y) by {
            assert forall|i: int| 0 <= i < x.len() implies x[i] == y[i] by {
                assert(l[a.len() + 1 + i] == x[i]);
                assert(r[b.len() + 1 + i] == y[i]);
            }
        }
    }
}

/// Appends `name` under `base`.
pub fn join_path(base: &str, name: &str) -> (r: String)
    ensures
        r@ == spec_join(base@, name@),
{
    proof {
        reveal_strlit("/");
    }
    if name.unicode_len() > 0 && name.get_char(0) == '/' {
        String::from_str(name)
    } else {
        let mut s = String::from_str(base);
        s.append("/");
        s.append(name);
        proof {
            assert(s@ =~= spec_join(base@, name@));
        }
        s
    }
}

/// The well-known locations used by the settings manager, all below the
/// user's home directory.
pub struct Paths {
    /// The home directory every other location is derived from.
    pub home_path: String,
    /// The manager's own configuration directory.
    pub setman_path: String,
    /// The local staging tree, one subdirectory per tracked application.
    pub settings_path: String,
    /// The registry document listing the tracked applications.
    pub applist_path: String,
    /// The document holding the upstream remote's URL.
    pub upstream_path: String,
    /// The document holding the last synchronized commit identifier.
    pub commit_id_path: String,
}

impl Paths {
    /// All locations stand in their documented place below `home_path`.
    pub open spec fn wf(self) -> bool {
        &&& self.setman_path@ == self.home_path@ + "/.config/setman"@
        &&& self.settings_path@ == self.setman_path@ + "/settings"@
        &&& self.applist_path@ == self.setman_path@ + "/apps.toml"@
        &&& self.upstream_path@ == self.setman_path@ + "/upstream_url"@
        &&& self.commit_id_path@ == self.setman_path@ + "/latest_commit"@
    }

    /// Derives every location from the given home directory.
    pub fn from_home(home: &str) -> (r: Paths)
        ensures
            r.wf(),
            r.home_path@ == home@,
    {
        let home_path = String::from_str(home);
        let mut setman_path = String::from_str(home);
        setman_path.append("/.config/setman");
        let mut settings_path = setman_path.clone();
        settings_path.append("/settings");
        let mut applist_path = setman_path.clone();
        applist_path.append("/apps.toml");
        let mut upstream_path = setman_path.clone();
        upstream_path.append("/upstream_url");
        let mut commit_id_path = setman_path.clone();
        commit_id_path.append("/latest_commit");
        Paths { home_path, setman_path, settings_path, applist_path, upstream_path, commit_id_path }
    }

    /// Derives every location from the machine's home directory, when one
    /// is known.
    pub fn new() -> (r: Option<Paths>)
        ensures
            r matches Some(p) ==> p.wf(),
    {
        match home_dir_string() {
            Some(home) => Some(Paths::from_home(home.as_str())),
            None => None,
        }
    }

    /// The staging slot of the application called `app_name`.
    pub fn get_app_path(&self, app_name: &str) -> (r: String)
        ensures
            r@ == spec_join(self.settings_path@, app_name@),
    {
        join_path(self.settings_path.as_str(), app_name)
    }

    /// Resolves a path read from the user against the home directory;
    /// an already absolute path is kept as it is.
    pub fn get_absolute_path(&self, rel_path: &str) -> (r: String)
        ensures
            r@ == spec_join(self.home_path@, rel_path@),
    {
        join_path(self.home_path.as_str(), rel_path)
    }
}

/// Relies on home::home_dir: the user's home directory, read from the
/// environment; nothing is promised of the outcome.
#[verifier::external_body]
pub(crate) fn home_dir_string() -> (r: Option<String>)
{
    home::home_dir().map(|p| p.display().to_string())
}

} // verus!
