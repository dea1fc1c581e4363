//! The settings of one scan: which files, which extra words, which words to ignore.
use vstd::prelude::*;

verus! {

/// The included pattern used when none is configured.
pub const DEFAULT_INCLUDE: &'static str = "**/*.{md,txt,rs,js,ts,py,c,cpp,h,hpp,go,java}";

/// The settings of a scan.
pub struct Config {
    pub files: FilesConfig,
    pub dictionary: DictionaryConfig,
    pub ignore: IgnoreConfig,
}

/// Glob patterns that select the files to check, relative to the scan root.
pub struct FilesConfig {
    pub included: Vec<String>,
    pub exclude: Vec<String>,
}

/// Words to accept besides the base word list, and further word-list files.
pub struct DictionaryConfig {
    pub extra_words: Vec<String>,
    pub extra_dictionaries: Vec<String>,
}

/// Words never reported, compared without regard to ASCII case.
pub struct IgnoreConfig {
    pub words: Vec<String>,
}

/// The included patterns used when none are configured: one broad pattern.
pub fn default_include() -> (r: Vec<String>)
    ensures
        r@.len() == 1,
        r@[0]@ == DEFAULT_INCLUDE@,
{
    let mut v: Vec<String> = Vec::new();
    v.push(DEFAULT_INCLUDE.to_owned());
    v
}

impl Default for FilesConfig {
    fn default() -> (r: Self)
        ensures
            r.included@.len() == 1,
            r.included@[0]@ == DEFAULT_INCLUDE@,
            r.exclude@.len() == 0,
    {
        FilesConfig { included: default_include(), exclude: Vec::new() }
    }
}

impl Default for DictionaryConfig {
    fn default() -> (r: Self)
        ensures
            r.extra_words@.len() == 0,
            r.extra_dictionaries@.len() == 0,
    {
        DictionaryConfig { extra_words: Vec::new(), extra_dictionaries: Vec::new() }
    }
}

impl Default for IgnoreConfig {
    fn default() -> (r: Self)
        ensures
            r.words@.len() == 0,
    {
        IgnoreConfig { words: Vec::new() }
    }
}

impl Default for Config {
    fn default() -> (r: Self)
        ensures
            r.files.included@.len() == 1,
            r.files.included@[0]@ == DEFAULT_INCLUDE@,
            r.files.exclude@.len() == 0,
            r.dictionary.extra_words@.len() == 0,
            r.dictionary.extra_dictionaries@.len() == 0,
            r.ignore.words@.len() == 0,
    {
        Config {
            files: FilesConfig::default(),
            dictionary: DictionaryConfig::default(),
            ignore: IgnoreConfig::default(),
        }
    }
}

} // verus!
