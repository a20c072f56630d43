//! The application registry: the list of tracked applications, with
//! lookup, insertion, removal and pattern search.
//!
//! The registry's invariant is that application names are unique; an
//! insertion with an existing name fails with `Duplicate` and leaves the
//! registry unchanged, and removing an absent name is a no-op.

use vstd::prelude::*;

verus! {

/// Ghost view of one tracked application.
#[verifier::ext_equal]
pub struct AppView {
    pub name: Seq<char>,
    pub config_path: Seq<char>,
    pub file_names: Seq<Seq<char>>,
}

/// One tracked application: its unique name, the absolute location of its
/// real configuration, and the names of the files to preserve there.
pub struct App {
    pub name: String,
    pub config_path: String,
    pub file_names: Vec<String>,
}

impl View for App {
    type V = AppView;

    open spec fn view(&self) -> AppView {
        AppView {
            name: self.name@,
            config_path: self.config_path@,
            file_names: self.file_names.deep_view(),
        }
    }
}

impl DeepView for App {
    type V = AppView;

    open spec fn deep_view(&self) -> AppView {
        self.view()
    }
}

impl Clone for App {
    fn clone(&self) -> (r: Self)
        ensures
            r@ == self@,
    {
        let r = App {
            name: self.name.clone(),
            config_path: self.config_path.clone(),
            file_names: self.file_names.clone(),
        };
        proof {
            assert(r.file_names.deep_view() =~= self.file_names.deep_view());
        }
        r
    }
}

impl App {
    /// Builds an application entry, resolving the configuration path
    /// against the given home directory.
    pub fn with_home(name: String, config_path: String, file_names: Vec<String>, home: &str) -> (r:
        App)
        ensures
            r.name == name,
            r.config_path@ == crate::paths::spec_join(home@, config_path@),
            r.file_names == file_names,
    {
        let config_path = crate::paths::join_path(home, config_path.as_str());
        App { name, config_path, file_names }
    }

    /// Builds an application entry, resolving the configuration path
    /// against the machine's home directory; `None` when no home
    /// directory is known.
    pub fn new(name: String, config_path: String, file_names: Vec<String>) -> (r: Option<App>)
        ensures
            r matches Some(a) ==> {
                &&& a.name == name
                &&& a.file_names == file_names
                &&& exists|home: Seq<char>|
                    a.config_path@ == crate::paths::spec_join(home, config_path@)
            },
    {
        match crate::paths::home_dir_string() {
            Some(home) => Some(App::with_home(name, config_path, file_names, home.as_str())),
            None => None,
        }
    }
}

/// A registry lookup or insertion failure.
#[derive(Debug)]
pub enum AppError<'a> {
    /// No application with the given name is registered.
    NotFound(&'a str),
    /// An application with that name is already registered.
    Duplicate,
}

impl<'a> AppError<'a> {
    /// The diagnostic shown to the user.
    pub fn message(&self) -> (r: String)
        ensures
            self matches AppError::NotFound(n) ==> r@ == "An application with name '"@ + n@
                + "' could not be found."@,
            self matches AppError::Duplicate ==> r@
                == "An application with that name already exists"@,
    {
        match self {
            AppError::NotFound(n) => {
                let mut s = String::from_str("An application with name '");
                s.append(n);
                s.append("' could not be found.");
                proof {
                    assert(s@ =~= "An application with name '"@ + n@
                        + "' could not be found."@);
                }
                s
            },
            AppError::Duplicate => String::from_str(
                "An application with that name already exists",
            ),
        }
    }
}

/// Whether some entry carries the given name.
pub open spec fn contains_name(items: Seq<AppView>, name: Seq<char>) -> bool {
    exists|i: int| 0 <= i < items.len() && items[i].name == name
}

/// The first position carrying the given name, or `-1` when there is none.
pub open spec fn first_index_of_name(items: Seq<AppView>, name: Seq<char>) -> int
    decreases items.len(),
{
    if items.len() == 0 {
        -1
    } else if items[0].name == name {
        0
    } else {
        let rest = first_index_of_name(items.drop_first(), name);
        if rest < 0 {
            -1
        } else {
            1 + rest
        }
    }
}

/// `first_index_of_name` points at the first entry with the given name,
/// and is `-1` exactly when no entry carries it.
pub proof fn lemma_first_index_of_name(items: Seq<AppView>, name: Seq<char>)
    ensures
        contains_name(items, name) <==> 0 <= first_index_of_name(items, name) < items.len(),
        !contains_name(items, name) ==> first_index_of_name(items, name) == -1,
        contains_name(items, name) ==> items[first_index_of_name(items, name)].name == name,
        forall|j: int|
            0 <= j < first_index_of_name(items, name) ==> items[j].name != name,
    decreases items.len(),
{
    if items.len() > 0 && items[0].name != name {
        lemma_first_index_of_name(items.drop_first(), name);
        assert(contains_name(items, name) ==> contains_name(items.drop_first(), name)) by {
            if contains_name(items, name) {
                let i = choose|i: int| 0 <= i < items.len() && items[i].name == name;
                assert(items.drop_first()[i - 1].name == name);
            }
        }
        assert forall|j: int| 0 <= j < first_index_of_name(items, name) implies items[j].name
            != name by {
            if j > 0 {
                assert(items[j] == items.drop_first()[j - 1]);
            }
        }
    }
}

/// The entries left after removing every entry with the given name,
/// in their original order.
pub open spec fn remove_named(items: Seq<AppView>, name: Seq<char>) -> Seq<AppView>
    decreases items.len(),
{
    if items.len() == 0 {
        Seq::empty()
    } else if items.last().name == name {
        remove_named(items.drop_last(), name)
    } else {
        remove_named(items.drop_last(), name).push(items.last())
    }
}

/// The entries whose name the pattern matches, in their original order.
pub open spec fn matched_by_pattern(items: Seq<AppView>, pattern: Seq<char>) -> Seq<AppView>
    decreases items.len(),
{
    if items.len() == 0 {
        Seq::empty()
    } else if regex_match(pattern, items.last().name) {
        matched_by_pattern(items.drop_last(), pattern).push(items.last())
    } else {
        matched_by_pattern(items.drop_last(), pattern)
    }
}

/// The durable list of tracked applications.
pub struct Apps {
    pub items: Vec<App>,
}

impl View for Apps {
    type V = Seq<AppView>;

    open spec fn view(&self) -> Seq<AppView> {
        self.items.deep_view()
    }
}

impl Apps {
    /// Exact, case-sensitive lookup by name; `NotFound` when absent.
    pub fn find_app_by_name<'a>(&self, app_name: &'a str) -> (r: Result<App, AppError<'a>>)
        ensures
            contains_name(self@, app_name@) ==> (r matches Ok(a) && a@ == self@[
                first_index_of_name(self@, app_name@)
            ]),
            !contains_name(self@, app_name@) ==> (r matches Err(e) && e == AppError::NotFound(
                app_name,
            )),
    {
        let needle = String::from_str(app_name);
        let mut i: usize = 0;
        while i < self.items.len()
            invariant
                i <= self.items.len(),
                needle@ == app_name@,
                forall|j: int| 0 <= j < i ==> self@[j].name != app_name@,
            decreases self.items.len() - i,
        {
            if self.items[i].name == needle {
                let found = self.items[i].clone();
                proof {
                    lemma_first_index_of_name(self@, app_name@);
                    assert(self@[i as int].name == app_name@);
                    assert(contains_name(self@, app_name@));
                    let fi = first_index_of_name(self@, app_name@);
                    assert(fi <= i) by {
                        if fi > i as int {
                            assert(self@[i as int].name != app_name@);
                        }
                    }
                    assert(fi == i) by {
                        if fi < i as int {
                            assert(self@[fi].name != app_name@);
                        }
                    }
                }
                return Ok(found);
            }
            i = i + 1;
        }
        proof {
            assert(!contains_name(self@, app_name@)) by {
                if contains_name(self@, app_name@) {
                    let k = choose|k: int| 0 <= k < self@.len() && self@[k].name == app_name@;
                    assert(self@[k].name != app_name@);
                }
            }
        }
        Err(AppError::NotFound(app_name))
    }

    /// Appends a new application; fails with `Duplicate`, leaving the
    /// registry unchanged, when the name is already registered.
    pub fn save_new_app(&mut self, app: App) -> (r: Result<(), AppError<'static>>)
        ensures
            contains_name(old(self)@, app@.name) ==> (r matches Err(e) && e
                == AppError::<'static>::Duplicate && final(self)@ == old(self)@),
            !contains_name(old(self)@, app@.name) ==> (r matches Ok(u) && final(self)@ == old(
                self,
            )@.push(app@)),
    {
        let mut i: usize = 0;
        while i < self.items.len()
            invariant
                i <= self.items.len(),
                forall|j: int| 0 <= j < i ==> self@[j].name != app@.name,
            decreases self.items.len() - i,
        {
            if self.items[i].name == app.name {
                proof {
                    assert(self@[i as int].name == app@.name);
                }
                return Err(AppError::Duplicate);
            }
            i = i + 1;
        }
        let ghost before = self@;
        self.items.push(app);
        proof {
            assert(final(self)@ =~= before.push(app@));
        }
        Ok(())
    }

    /// Removes every entry with the given name; removing an absent name
    /// leaves the registry unchanged.
    pub fn remove_app(&mut self, app_name: &str)
        ensures
            final(self)@ == remove_named(old(self)@, app_name@),
    {
        let needle = String::from_str(app_name);
        let mut kept: Vec<App> = Vec::new();
        let mut i: usize = 0;
        while i < self.items.len()
            invariant
                i <= self.items.len(),
                needle@ == app_name@,
                kept.deep_view() == remove_named(self@.take(i as int), app_name@),
            decreases self.items.len() - i,
        {
            proof {
                assert(self@.take(i + 1 as int).drop_last() =~= self@.take(i as int));
                assert(self@.take(i + 1 as int).last() == self@[i as int]);
            }
            if !(self.items[i].name == needle) {
                let ghost kept_before = kept.deep_view();
                kept.push(self.items[i].clone());
                proof {
                    assert(kept.deep_view() =~= kept_before.push(self@[i as int]));
                }
            }
            i = i + 1;
        }
        proof {
            assert(self@.take(self.items.len() as int) =~= self@);
        }
        self.items = kept;
    }

    /// Every application whose name matches the regular expression, in
    /// registry order; `None` when the pattern does not compile.
    pub fn find_apps_from_regex(&self, regex: &str) -> (r: Option<Vec<App>>)
        ensures
            r is Some <==> regex_valid(regex@),
            r matches Some(v) ==> v.deep_view() == matched_by_pattern(self@, regex@),
    {
        match regex_matches(regex, "") {
            None => None,
            Some(_) => {
                let mut found: Vec<App> = Vec::new();
                let mut i: usize = 0;
                while i < self.items.len()
                    invariant
                        i <= self.items.len(),
                        regex_valid(regex@),
                        found.deep_view() == matched_by_pattern(self@.take(i as int), regex@),
                    decreases self.items.len() - i,
                {
                    proof {
                        assert(self@.take(i + 1 as int).drop_last() =~= self@.take(i as int));
                        assert(self@.take(i + 1 as int).last() == self@[i as int]);
                    }
                    let is_hit = regex_matches(regex, self.items[i].name.as_str());
                    if is_hit.unwrap() {
                        let ghost found_before = found.deep_view();
                        found.push(self.items[i].clone());
                        proof {
                            assert(found.deep_view() =~= found_before.push(self@[i as int]));
                        }
                    }
                    i = i + 1;
                }
                proof {
                    assert(self@.take(self.items.len() as int) =~= self@);
                }
                Some(found)
            },
        }
    }
}

/// Law: inserting an application whose name is not yet registered and then
/// looking that name up finds exactly the inserted application, unchanged.
pub proof fn lemma_insert_then_find(items: Seq<AppView>, app: AppView)
    requires
        !contains_name(items, app.name),
    ensures
        contains_name(items.push(app), app.name),
        first_index_of_name(items.push(app), app.name) == items.len() as int,
        items.push(app)[first_index_of_name(items.push(app), app.name)] == app,
    decreases items.len(),
{
    let pushed = items.push(app);
    assert(pushed[items.len() as int] == app);
    if items.len() == 0 {
        assert(pushed[0].name == app.name);
    } else {
        assert(items[0].name != app.name);
        assert(pushed[0].name != app.name);
        assert(!contains_name(items.drop_first(), app.name)) by {
            if contains_name(items.drop_first(), app.name) {
                let i = choose|i: int|
                    0 <= i < items.drop_first().len() && items.drop_first()[i].name == app.name;
                assert(items[i + 1].name == app.name);
            }
        }
        lemma_insert_then_find(items.drop_first(), app);
        assert(pushed.drop_first() =~= items.drop_first().push(app));
    }
}

/// Law: removing a name that no entry carries leaves the registry
/// unchanged.
pub proof fn lemma_remove_absent(items: Seq<AppView>, name: Seq<char>)
    requires
        !contains_name(items, name),
    ensures
        remove_named(items, name) == items,
    decreases items.len(),
{
    if items.len() > 0 {
        assert(items.last().name != name);
        assert(!contains_name(items.drop_last(), name)) by {
            if contains_name(items.drop_last(), name) {
                let i = choose|i: int|
                    0 <= i < items.drop_last().len() && items.drop_last()[i].name == name;
                assert(items[i].name == name);
            }
        }
        lemma_remove_absent(items.drop_last(), name);
        assert(remove_named(items.drop_last(), name).push(items.last()) =~= items);
    }
}

/// A directory entry as the machine reports it: a bare name, and whether
/// the entry is itself a directory.
pub struct FsEntry {
    pub name: String,
    pub is_dir: bool,
}

/// Ghost view of a directory entry.
pub struct FsEntryView {
    pub name: Seq<char>,
    pub is_dir: bool,
}

impl View for FsEntry {
    type V = FsEntryView;

    open spec fn view(&self) -> FsEntryView {
        FsEntryView { name: self.name@, is_dir: self.is_dir }
    }
}

impl DeepView for FsEntry {
    type V = FsEntryView;

    open spec fn deep_view(&self) -> FsEntryView {
        self.view()
    }
}

/// The names of the entries that are directories, in their original order.
pub open spec fn dir_names_of(entries: Seq<FsEntryView>) -> Seq<Seq<char>>
    decreases entries.len(),
{
    if entries.len() == 0 {
        Seq::empty()
    } else if entries.last().is_dir {
        dir_names_of(entries.drop_last()).push(entries.last().name)
    } else {
        dir_names_of(entries.drop_last())
    }
}

/// Keeps the names of the entries that are themselves directories.
pub fn get_dir_names_in_path(entries: &Vec<FsEntry>) -> (r: Vec<String>)
    ensures
        r.deep_view() == dir_names_of(entries.deep_view()),
{
    let mut names: Vec<String> = Vec::new();
    let mut i: usize = 0;
    while i < entries.len()
        invariant
            i <= entries.len(),
            names.deep_view() == dir_names_of(entries.deep_view().take(i as int)),
        decreases entries.len() - i,
    {
        proof {
            assert(entries.deep_view().take(i + 1 as int).drop_last() =~= entries.deep_view().take(
                i as int,
            ));
            assert(entries.deep_view().take(i + 1 as int).last() == entries.deep_view()[i as int]);
        }
        if entries[i].is_dir {
            let ghost names_before = names.deep_view();
            names.push(entries[i].name.clone());
            proof {
                assert(names.deep_view() =~= names_before.push(entries.deep_view()[i as int].name));
            }
        }
        i = i + 1;
    }
    proof {
        assert(entries.deep_view().take(entries.len() as int) =~= entries.deep_view());
    }
    names
}

/// Whether the character separates file names in the user's input: a
/// blank, a tab or a line break.
pub open spec fn is_name_space(c: char) -> bool {
    c == ' ' || c == '\t' || c == '\n' || c == '\r'
}

/// The tokens closed so far and the token still open after scanning the
/// input: a separator closes the open token, every other character
/// extends it.
pub open spec fn split_names_state(s: Seq<char>) -> (Seq<Seq<char>>, Seq<char>)
    decreases s.len(),
{
    if s.len() == 0 {
        (Seq::empty(), Seq::empty())
    } else {
        let st = split_names_state(s.drop_last());
        if is_name_space(s.last()) {
            if st.1.len() > 0 {
                (st.0.push(st.1), Seq::<char>::empty())
            } else {
                (st.0, Seq::<char>::empty())
            }
        } else {
            (st.0, st.1.push(s.last()))
        }
    }
}

/// The separator-delimited tokens of the input, in order.
pub open spec fn spec_split_names(s: Seq<char>) -> Seq<Seq<char>> {
    let st = split_names_state(s);
    if st.1.len() > 0 {
        st.0.push(st.1)
    } else {
        st.0
    }
}

/// Splits the file names the user typed: the names are the maximal runs
/// free of blanks, tabs and line breaks.
pub fn split_file_names(input: &str) -> (r: Vec<String>)
    ensures
        r.deep_view() == spec_split_names(input@),
{
    let n = input.unicode_len();
    let mut names: Vec<String> = Vec::new();
    let mut cur = String::new();
    let mut i: usize = 0;
    while i < n
        invariant
            n == input@.len(),
            i <= n,
            names.deep_view() == split_names_state(input@.take(i as int)).0,
            cur@ == split_names_state(input@.take(i as int)).1,
        decreases n - i,
    {
        proof {
            assert(input@.take(i + 1 as int).drop_last() =~= input@.take(i as int));
            assert(input@.take(i + 1 as int).last() == input@[i as int]);
        }
        let c = input.get_char(i);
        if c == ' ' || c == '\t' || c == '\n' || c == '\r' {
            if cur.unicode_len() > 0 {
                let ghost names_before = names.deep_view();
                let ghost cur_before = cur@;
                names.push(cur);
                cur = String::new();
                proof {
                    assert(names.deep_view() =~= names_before.push(cur_before));
                }
            }
        } else {
            let ghost cur_before = cur@;
            cur.append(input.substring_char(i, i + 1));
            proof {
                assert(input@.subrange(i as int, i + 1 as int) =~= seq![input@[i as int]]);
                assert(cur@ =~= cur_before.push(input@[i as int]));
            }
        }
        i = i + 1;
    }
    proof {
        assert(input@.take(n as int) =~= input@);
    }
    if cur.unicode_len() > 0 {
        let ghost names_before = names.deep_view();
        let ghost cur_before = cur@;
        names.push(cur);
        proof {
            assert(names.deep_view() =~= names_before.push(cur_before));
        }
    }
    names
}

/// Whether the regular expression is a valid pattern; what
/// `regex::Regex::new` accepts.
pub uninterp spec fn regex_valid(pattern: Seq<char>) -> bool;

/// Whether the regular expression matches somewhere in the text; what
/// `regex::Regex::is_match` returns. A function of the two strings alone.
pub uninterp spec fn regex_match(pattern: Seq<char>, text: Seq<char>) -> bool;

/// Relies on regex::Regex::new and regex::Regex::is_match: compiling
/// succeeds exactly for valid patterns, and matching is a function of the
/// pattern and the text alone.
#[verifier::external_body]
fn regex_matches(pattern: &str, text: &str) -> (r: Option<bool>)
    ensures
        r is Some <==> regex_valid(pattern@),
        r matches Some(b) ==> b == regex_match(pattern@, text@),
{
    match regex::Regex::new(pattern) {
        Ok(re) => Some(re.is_match(text)),
        Err(_) => None,
    }
}

} // verus!
