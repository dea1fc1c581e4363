//! The settings, dictionary and compiled filter of one scan, shared read-only by
//! every file check.
use vstd::prelude::*;
use crate::checker::{check_lines, findings_of, findings_view, strings_view, SpellError};
use crate::config::Config;
use crate::dictionary::Dictionary;
use crate::path_filter::{error_explained, lists_compile, path_passes, ConfigError, PathFilter};
use crate::tokenizer::{lines_of, split_lines};

verus! {

/// What a scan needs, fixed before it starts.
pub struct Engine {
    config: Config,
    dictionary: Dictionary,
    filter: PathFilter,
}

impl Engine {
    /// The words that the scan accepts.
    pub closed spec fn known_words(&self) -> Set<Seq<char>> {
        self.dictionary.view()
    }

    /// The words that the scan never reports.
    pub closed spec fn ignore_words(&self) -> Seq<Seq<char>> {
        strings_view(self.config.ignore.words@)
    }

    /// The patterns that select files.
    pub closed spec fn included(&self) -> Seq<Seq<char>> {
        self.filter.included()
    }

    /// The patterns that leave files out.
    pub closed spec fn excluded(&self) -> Seq<Seq<char>> {
        self.filter.exclude()
    }

    /// Builds an engine; every glob pattern of the settings must parse.
    pub fn try_new(config: Config, dictionary: Dictionary) -> (r: Result<Engine, ConfigError>)
        ensures
            r matches Ok(e) ==> e.known_words() == dictionary.view() && e.ignore_words()
                == strings_view(config.ignore.words@) && e.included() == strings_view(
                config.files.included@,
            ) && e.excluded() == strings_view(config.files.exclude@),
            r is Ok <==> lists_compile(
                strings_view(config.files.included@),
                strings_view(config.files.exclude@),
            ),
            r matches Err(e) ==> error_explained(
                strings_view(config.files.included@),
                strings_view(config.files.exclude@),
                e,
            ),
    {
        match PathFilter::try_new(&config.files.included, &config.files.exclude) {
            Ok(filter) => Ok(Engine { config, dictionary, filter }),
            Err(e) => Err(e),
        }
    }

    /// Builds an engine, as `try_new` does: a glob pattern of the settings that does
    /// not parse is a configuration error naming it, and no engine is built.
    pub fn new(config: Config, dictionary: Dictionary) -> (r: Result<Engine, ConfigError>)
        ensures
            r matches Ok(e) ==> e.known_words() == dictionary.view() && e.ignore_words()
                == strings_view(config.ignore.words@) && e.included() == strings_view(
                config.files.included@,
            ) && e.excluded() == strings_view(config.files.exclude@),
            r is Ok <==> lists_compile(
                strings_view(config.files.included@),
                strings_view(config.files.exclude@),
            ),
            r matches Err(e) ==> error_explained(
                strings_view(config.files.included@),
                strings_view(config.files.exclude@),
                e,
            ),
    {
        Self::try_new(config, dictionary)
    }

    /// Whether a path, relative to the scan root, is to be checked.
    pub fn should_check(&self, path: &str) -> (r: bool)
        ensures
            r == path_passes(self.included(), self.excluded(), path@),
    {
        self.filter.should_check(path)
    }

    /// The findings for the given lines of `file`.
    pub fn check_lines(&self, file: &str, lines: &Vec<String>) -> (r: Vec<SpellError>)
        ensures
            findings_view(r@) == findings_of(
                file@,
                strings_view(lines@),
                self.known_words(),
                self.ignore_words(),
            ),
    {
        check_lines(file, lines, &self.dictionary, &self.config.ignore.words)
    }

    /// The findings for the text of `file`, split into lines.
    pub fn check_content(&self, file: &str, content: &str) -> (r: Vec<SpellError>)
        ensures
            findings_view(r@) == findings_of(
                file@,
                lines_of(content@),
                self.known_words(),
                self.ignore_words(),
            ),
    {
        let lines = split_lines(content);
        self.check_lines(file, &lines)
    }
}

} // verus!
