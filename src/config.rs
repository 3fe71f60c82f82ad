use vstd::prelude::*;

verus! {

/// Name of the index file that is recognized, and created, when nothing else is configured.
pub const README_FILE: &'static str = "README.md";

/// Option key: use a document's first heading as its title.
pub const OPT_FIRST_LINE_AS_LINK: &'static str = "first-line-as-link-text";

/// Option key: use the first heading of a directory's index document as the directory's title.
pub const OPT_INDEX_FIRST_LINE_AS_DIRECTORY_LINK: &'static str = "index-first-line-as-directory-link-text";

/// Option key: what to do with a directory that has no index document.
pub const OPT_DIR_WITHOUT_INDEX_BEHAVIOR: &'static str = "directory-without-index-behavior";

/// Option key: the file names that serve as a directory's index.
pub const OPT_DIRECTORY_INDEX_NAMES: &'static str = "directory-index-names";

/// Compares two strings by their characters.
pub fn same_text(a: &str, b: &str) -> (r: bool)
    ensures
        r == (a@ == b@),
{
    let x = a.to_owned();
    let y = b.to_owned();
    x == y
}

/// Define the behavior for a directory with markdown files
/// but no index markdown files found
#[derive(Clone, Copy, Debug, PartialEq, Eq, Structural)]
pub enum DirectoryWithoutIndexBehavior {
    /// Ignore directory completely (default)
    Ignore,
    /// Mark the directory as a draft
    Draft,
    /// Create an stub index file automatically
    GenerateStubIndex,
}

impl DirectoryWithoutIndexBehavior {
    /// Parses the option value: `ignore`, `draft` or `generate-stub-index`.
    pub fn from_str(s: &str) -> (r: Option<DirectoryWithoutIndexBehavior>)
        ensures
            r == behavior_of(s@),
            r == Some(DirectoryWithoutIndexBehavior::Ignore) <==> s@ == "ignore"@,
            r == Some(DirectoryWithoutIndexBehavior::Draft) <==> s@ == "draft"@,
            r == Some(DirectoryWithoutIndexBehavior::GenerateStubIndex) <==> s@
                == "generate-stub-index"@,
            r is None <==> (s@ != "ignore"@ && s@ != "draft"@ && s@ != "generate-stub-index"@),
    {
        proof {
            reveal_strlit("ignore");
            reveal_strlit("draft");
            reveal_strlit("generate-stub-index");
            assert("ignore"@.len() == 6 && "draft"@.len() == 5 && "generate-stub-index"@.len() == 19);
        }
        if same_text(s, "ignore") {
            Some(DirectoryWithoutIndexBehavior::Ignore)
        } else if same_text(s, "draft") {
            Some(DirectoryWithoutIndexBehavior::Draft)
        } else if same_text(s, "generate-stub-index") {
            Some(DirectoryWithoutIndexBehavior::GenerateStubIndex)
        } else {
            None
        }
    }
}

/// A value given to one of the options, as the book's configuration holds it.
pub enum ConfigValue {
    Bool(bool),
    Str(String),
    Array(Vec<ConfigValue>),
    /// Any other kind of value (a number, a table, a date).
    Other,
}

/// The option table of this preprocessor, as key and value pairs.
pub struct ConfigTable {
    pub entries: Vec<(String, ConfigValue)>,
}

/// Index of the first entry of `entries`, from `i` on, whose key is `key`.
pub open spec fn find_key(entries: Seq<(String, ConfigValue)>, key: Seq<char>, i: int) -> Option<int>
    decreases entries.len() - i,
{
    if i < 0 || i >= entries.len() {
        None
    } else if entries[i].0@ == key {
        Some(i)
    } else {
        find_key(entries, key, i + 1)
    }
}

/// The value that `entries` holds for `key`: that of the first entry with that key.
pub open spec fn lookup(entries: Seq<(String, ConfigValue)>, key: Seq<char>) -> Option<ConfigValue> {
    match find_key(entries, key, 0) {
        Some(i) => Some(entries[i].1),
        None => None,
    }
}

/// What a boolean option takes from its value: the boolean, or false for anything else.
pub open spec fn flag_of(v: ConfigValue) -> bool {
    match v {
        ConfigValue::Bool(b) => b,
        _ => false,
    }
}

/// The policy that a string names.
pub open spec fn behavior_of(s: Seq<char>) -> Option<DirectoryWithoutIndexBehavior> {
    if s == "ignore"@ {
        Some(DirectoryWithoutIndexBehavior::Ignore)
    } else if s == "draft"@ {
        Some(DirectoryWithoutIndexBehavior::Draft)
    } else if s == "generate-stub-index"@ {
        Some(DirectoryWithoutIndexBehavior::GenerateStubIndex)
    } else {
        None
    }
}

/// True when every item of the list is a string.
pub open spec fn all_strings(items: Seq<ConfigValue>) -> bool {
    forall|i: int| 0 <= i < items.len() ==> #[trigger] items[i] is Str
}

/// The texts of a list of string items.
pub open spec fn texts_of(items: Seq<ConfigValue>) -> Seq<Seq<char>> {
    Seq::new(items.len(), |i: int| if items[i] is Str { items[i]->Str_0@ } else { Seq::empty() })
}

/// The views of a list of strings.
pub open spec fn views(v: Seq<String>) -> Seq<Seq<char>> {
    v.map_values(|s: String| s@)
}

/// The new policy: the one that the table names, where it names a known one.
pub open spec fn behavior_after(
    e: Seq<(String, ConfigValue)>,
    old: DirectoryWithoutIndexBehavior,
) -> DirectoryWithoutIndexBehavior {
    match lookup(e, OPT_DIR_WITHOUT_INDEX_BEHAVIOR@) {
        Some(ConfigValue::Str(s)) => match behavior_of(s@) {
            Some(b) => b,
            None => old,
        },
        _ => old,
    }
}

/// Whether the index names option, if the table has it, is accepted.
pub open spec fn names_outcome(e: Seq<(String, ConfigValue)>) -> Result<(), ConfigError> {
    match lookup(e, OPT_DIRECTORY_INDEX_NAMES@) {
        None => Ok(()),
        Some(ConfigValue::Array(items)) => if !all_strings(items@) {
            Err(ConfigError::IndexNameNotString)
        } else if items@.len() == 0 {
            Err(ConfigError::IndexNamesEmpty)
        } else {
            Ok(())
        },
        Some(_) => Err(ConfigError::IndexNamesNotArray),
    }
}

/// Whether the option table is accepted, and else the first fault found in it.
pub open spec fn table_outcome(e: Seq<(String, ConfigValue)>) -> Result<(), ConfigError> {
    match lookup(e, OPT_DIR_WITHOUT_INDEX_BEHAVIOR@) {
        None => names_outcome(e),
        Some(ConfigValue::Str(s)) => if behavior_of(s@) is None {
            Err(ConfigError::UnknownBehavior)
        } else {
            names_outcome(e)
        },
        Some(_) => Err(ConfigError::BehaviorNotString),
    }
}

/// The value of `entries` for `key`, found by its first entry with that key.
pub fn lookup_value<'a>(entries: &'a Vec<(String, ConfigValue)>, key: &str) -> (r: Option<
    &'a ConfigValue,
>)
    ensures
        match r {
            Some(v) => lookup(entries@, key@) == Some(*v),
            None => lookup(entries@, key@) is None,
        },
{
    let mut i: usize = 0;
    while i < entries.len()
        invariant
            0 <= i <= entries@.len(),
            find_key(entries@, key@, 0) == find_key(entries@, key@, i as int),
        decreases entries@.len() - i,
    {
        if same_text(entries[i].0.as_str(), key) {
            return Some(&entries[i].1);
        }
        i = i + 1;
    }
    None
}

/// The texts of `items`, if all of them are strings.
pub fn names_of(items: &Vec<ConfigValue>) -> (r: Option<Vec<String>>)
    ensures
        r is Some <==> all_strings(items@),
        r is Some ==> views(r->0@) == texts_of(items@),
{
    let mut names: Vec<String> = Vec::new();
    let mut i: usize = 0;
    while i < items.len()
        invariant
            0 <= i <= items@.len(),
            names@.len() == i,
            forall|j: int| 0 <= j < i ==> #[trigger] items@[j] is Str,
            forall|j: int| 0 <= j < i ==> #[trigger] names@[j]@ == items@[j]->Str_0@,
        decreases items@.len() - i,
    {
        match &items[i] {
            ConfigValue::Str(s) => {
                names.push(s.clone());
            },
            _ => {
                assert(!all_strings(items@));
                return None;
            },
        }
        i = i + 1;
    }
    assert(views(names@) =~= texts_of(items@));
    Some(names)
}

/// Why the option table was refused.
#[derive(Clone, Copy, Debug, PartialEq, Eq, Structural)]
pub enum ConfigError {
    /// The policy option is not a string.
    BehaviorNotString,
    /// The policy option names no known policy.
    UnknownBehavior,
    /// The index names option is not an array.
    IndexNamesNotArray,
    /// An item of the index names option is not a string.
    IndexNameNotString,
    /// The index names option is an empty array.
    IndexNamesEmpty,
}

/// The message that tells the user what is wrong.
pub open spec fn message_of(e: ConfigError) -> Seq<char> {
    match e {
        ConfigError::BehaviorNotString => BEHAVIOR_NOT_STRING@,
        ConfigError::UnknownBehavior => UNKNOWN_BEHAVIOR@,
        ConfigError::IndexNamesNotArray => INDEX_NAMES_NOT_ARRAY@,
        ConfigError::IndexNameNotString => INDEX_NAME_NOT_STRING@,
        ConfigError::IndexNamesEmpty => INDEX_NAMES_EMPTY@,
    }
}

pub const BEHAVIOR_NOT_STRING: &'static str =
    "Config key 'directory-without-index-behavior' must be a string";

pub const UNKNOWN_BEHAVIOR: &'static str =
    "Config key 'directory-without-index-behavior' must be one of 'ignore', 'draft', or 'generate-stub-index'";

pub const INDEX_NAMES_NOT_ARRAY: &'static str =
    "Config key 'directory-index-names' must be an array.";

pub const INDEX_NAME_NOT_STRING: &'static str =
    "Item in array for config key directory-index-names is not a string.";

pub const INDEX_NAMES_EMPTY: &'static str = "Config key directory-index-names must not be empty.";

impl ConfigError {
    /// The message that tells the user what is wrong.
    pub fn message(&self) -> (r: String)
        ensures
            r@ == message_of(*self),
    {
        match self {
            ConfigError::BehaviorNotString => String::from_str(BEHAVIOR_NOT_STRING),
            ConfigError::UnknownBehavior => String::from_str(UNKNOWN_BEHAVIOR),
            ConfigError::IndexNamesNotArray => String::from_str(INDEX_NAMES_NOT_ARRAY),
            ConfigError::IndexNameNotString => String::from_str(INDEX_NAME_NOT_STRING),
            ConfigError::IndexNamesEmpty => String::from_str(INDEX_NAMES_EMPTY),
        }
    }
}

pub struct AutoGenConfig {
    /// Whether the first line of the markdown file should be used
    /// as the file's title. If false, the title is name of the file.
    ///
    /// Note, the line must be an h1 (start with a single `#` and white
    /// space) to be recognized as the title.
    ///
    /// Default: false
    pub first_line_as_link_text: bool,
    /// The names of the files that can serve as an index for a directory.
    /// For example, "README.md" or "index.md".
    ///
    /// Default: [ "README.md" ]
    pub directory_index_names: Vec<String>,
    /// Whether the first line of the directory index markdown file
    /// should be used as the directory's title. If false, the title
    /// is the name of the directory.
    ///
    /// Default: false
    pub index_first_line_as_directory_link_text: bool,
    /// What to do if we find a directory without an index file in the
    /// directory?
    ///
    /// Default: Ignore
    pub directory_without_index_behavior: DirectoryWithoutIndexBehavior,
    /// The name of the index file to create in a directory without any other
    /// index files: the first of `directory_index_names`.
    ///
    /// Default: "README.md"
    pub generated_directory_index_name: String,
}

impl AutoGenConfig {
    /// The recognized index names, as text.
    pub open spec fn index_names(&self) -> Seq<Seq<char>> {
        views(self.directory_index_names@)
    }

    /// A usable configuration: at least one index name, and the first of them
    /// is the one that is created where a stub is needed.
    pub open spec fn wf(&self) -> bool {
        &&& self.directory_index_names@.len() > 0
        &&& self.generated_directory_index_name@ == self.directory_index_names@[0]@
    }

    pub fn new() -> (r: AutoGenConfig)
        ensures
            r.wf(),
            !r.first_line_as_link_text,
            !r.index_first_line_as_directory_link_text,
            r.directory_without_index_behavior == DirectoryWithoutIndexBehavior::Ignore,
            r.index_names() == seq![README_FILE@],
            r.generated_directory_index_name@ == README_FILE@,
    {
        let mut names: Vec<String> = Vec::new();
        names.push(String::from_str(README_FILE));
        let r = AutoGenConfig {
            first_line_as_link_text: false,
            index_first_line_as_directory_link_text: false,
            directory_without_index_behavior: DirectoryWithoutIndexBehavior::Ignore,
            directory_index_names: names,
            generated_directory_index_name: String::from_str(README_FILE),
        };
        assert(r.index_names() =~= seq![README_FILE@]);
        r
    }

    /// Replaces the index names by `names`; the first of them becomes the name
    /// of created stubs. An empty list is refused and changes nothing.
    pub fn set_index_names(&mut self, names: Vec<String>) -> (r: Result<(), ConfigError>)
        ensures
            names@.len() == 0 ==> r == Err::<(), ConfigError>(ConfigError::IndexNamesEmpty)
                && *final(self) == *old(self),
            names@.len() > 0 ==> r == Ok::<(), ConfigError>(()) && final(self).index_names() == views(names@)
                && final(self).generated_directory_index_name@ == names@[0]@
                && final(self).first_line_as_link_text == old(self).first_line_as_link_text
                && final(self).index_first_line_as_directory_link_text
                == old(self).index_first_line_as_directory_link_text
                && final(self).directory_without_index_behavior
                == old(self).directory_without_index_behavior && final(self).wf(),
    {
        if names.len() == 0 {
            return Err(ConfigError::IndexNamesEmpty);
        }
        let first = names[0].clone();
        self.generated_directory_index_name = first;
        self.directory_index_names = names;
        Ok(())
    }

    /// Given the option table of this preprocessor in the book's
    /// configuration (none if the book has none), takes the options it sets.
    /// The options are taken in this order, and a fault stops the work where
    /// it is found: the two title flags (a value that is no boolean counts as
    /// false), the policy, the index names.
    pub fn apply_config(&mut self, table: Option<&ConfigTable>) -> (r: Result<(), ConfigError>)
        ensures
            table is None ==> r is Ok && *final(self) == *old(self),
            table is Some ==> ({
                let e = table->0.entries@;
                &&& r == table_outcome(e)
                &&& final(self).first_line_as_link_text == match lookup(e, OPT_FIRST_LINE_AS_LINK@) {
                    Some(v) => flag_of(v),
                    None => old(self).first_line_as_link_text,
                }
                &&& final(self).index_first_line_as_directory_link_text == match lookup(
                    e,
                    OPT_INDEX_FIRST_LINE_AS_DIRECTORY_LINK@,
                ) {
                    Some(v) => flag_of(v),
                    None => old(self).index_first_line_as_directory_link_text,
                }
                &&& final(self).directory_without_index_behavior == behavior_after(
                    e,
                    old(self).directory_without_index_behavior,
                )
                &&& if r is Ok && lookup(e, OPT_DIRECTORY_INDEX_NAMES@) is Some {
                    let items = lookup(e, OPT_DIRECTORY_INDEX_NAMES@)->0->Array_0@;
                    &&& final(self).index_names() == texts_of(items)
                    &&& final(self).generated_directory_index_name@ == texts_of(items)[0]
                } else {
                    &&& final(self).directory_index_names == old(self).directory_index_names
                    &&& final(self).generated_directory_index_name
                        == old(self).generated_directory_index_name
                }
            }),
            old(self).wf() ==> final(self).wf(),
    {
        let table = match table {
            Some(t) => t,
            None => return Ok(()),
        };
        let e = &table.entries;
        if let Some(v) = lookup_value(e, OPT_FIRST_LINE_AS_LINK) {
            self.first_line_as_link_text = match v {
                ConfigValue::Bool(b) => *b,
                _ => false,
            };
        }
        if let Some(v) = lookup_value(e, OPT_INDEX_FIRST_LINE_AS_DIRECTORY_LINK) {
            self.index_first_line_as_directory_link_text = match v {
                ConfigValue::Bool(b) => *b,
                _ => false,
            };
        }
        if let Some(v) = lookup_value(e, OPT_DIR_WITHOUT_INDEX_BEHAVIOR) {
            let s = match v {
                ConfigValue::Str(s) => s,
                _ => return Err(ConfigError::BehaviorNotString),
            };
            match DirectoryWithoutIndexBehavior::from_str(s.as_str()) {
                Some(b) => {
                    self.directory_without_index_behavior = b;
                },
                None => return Err(ConfigError::UnknownBehavior),
            }
        }
        if let Some(v) = lookup_value(e, OPT_DIRECTORY_INDEX_NAMES) {
            let items = match v {
                ConfigValue::Array(items) => items,
                _ => return Err(ConfigError::IndexNamesNotArray),
            };
            assert(lookup(e@, OPT_DIRECTORY_INDEX_NAMES@) == Some(ConfigValue::Array(*items)));
            return match names_of(items) {
                Some(names) => {
                    assert(views(names@).len() == items@.len());
                    self.set_index_names(names)
                },
                None => Err(ConfigError::IndexNameNotString),
            };
        }
        Ok(())
    }
}

} // verus!
