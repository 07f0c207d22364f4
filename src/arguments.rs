//! The options of a run, and the command line as far as the library reads it.

use vstd::prelude::*;

use crate::matching::{all_lowercase_words, are_extensions_valid, words};
use crate::preset::{self, preset_result, PresetError};
use crate::text::clone_words;

verus! {

/// How a directory tree is walked and which files are selected.
#[derive(Clone, Copy, Debug, PartialEq, Eq, Structural)]
pub struct CollectOptions {
    /// Also visit entries whose name starts with a dot.
    pub all: bool,
    /// Print each selected file as it is found.
    pub list: bool,
    /// Descend into subdirectories.
    pub recurse: bool,
    /// Select the files that match none of the extensions.
    pub invert: bool,
}

/// How the selected files are deleted.
#[derive(Clone, Copy, Debug, PartialEq, Eq, Structural)]
pub struct DeleteOptions {
    /// Delete without asking for confirmation.
    pub force: bool,
    /// Delete nothing.
    pub dry_run: bool,
}

/// The command line, as far as the library reads it.
#[derive(Debug)]
pub struct Args {
    /// Extensions given directly, without dots.
    pub extensions: Vec<String>,
    pub all: bool,
    pub force: bool,
    pub list: bool,
    pub dry_run: bool,
    pub recurse: bool,
    pub invert: bool,
    /// A preset of extensions to load from the configuration text instead.
    pub preset: Option<String>,
    /// Show the presets instead of deleting.
    pub presets: bool,
}

/// Why no extensions could be had.
#[derive(Clone, Copy, Debug, PartialEq, Eq, Structural)]
pub enum ExtensionsError {
    /// A preset was asked for, but the configuration could not be read.
    ConfigUnreadable,
    /// The preset could not be read from the configuration.
    Preset(PresetError),
    /// Some extension holds another character than `a` to `z`.
    Invalid,
}

/// The extensions asked for, before validation: those of the preset if one is named,
/// looked up in the configuration text `config`, else those given directly.
pub open spec fn raw_extensions(a: &Args, config: Option<Seq<char>>) -> Result<
    Seq<Seq<char>>,
    ExtensionsError,
> {
    match a.preset {
        Some(p) => match config {
            None => Err(ExtensionsError::ConfigUnreadable),
            Some(d) => match preset_result(p@, d) {
                Ok(w) => Ok(w),
                Err(e) => Err(ExtensionsError::Preset(e)),
            },
        },
        None => Ok(words(a.extensions@)),
    }
}

/// The extensions asked for, which must all be made of the letters `a` to `z`.
pub open spec fn checked_extensions(a: &Args, config: Option<Seq<char>>) -> Result<
    Seq<Seq<char>>,
    ExtensionsError,
> {
    match raw_extensions(a, config) {
        Ok(w) => if all_lowercase_words(w) {
            Ok(w)
        } else {
            Err(ExtensionsError::Invalid)
        },
        Err(e) => Err(e),
    }
}

/// The characters of the configuration text, if it could be read.
pub open spec fn text_of(config: &Option<String>) -> Option<Seq<char>> {
    match config {
        Some(s) => Some(s@),
        None => None,
    }
}

impl Args {
    /// A dry run lists the files it would delete.
    pub fn apply_dry_run(&mut self)
        ensures
            final(self).list == (old(self).list || old(self).dry_run),
            final(self).extensions == old(self).extensions,
            final(self).all == old(self).all,
            final(self).force == old(self).force,
            final(self).dry_run == old(self).dry_run,
            final(self).recurse == old(self).recurse,
            final(self).invert == old(self).invert,
            final(self).preset == old(self).preset,
            final(self).presets == old(self).presets,
    {
        if self.dry_run {
            self.list = true;
        }
    }

    fn raw_get_extensions(&self, config: &Option<String>) -> (r: Result<
        Vec<String>,
        ExtensionsError,
    >)
        ensures
            match r {
                Ok(v) => raw_extensions(self, text_of(config)) == Ok::<
                    Seq<Seq<char>>,
                    ExtensionsError,
                >(words(v@)),
                Err(e) => raw_extensions(self, text_of(config)) == Err::<
                    Seq<Seq<char>>,
                    ExtensionsError,
                >(e),
            },
    {
        match &self.preset {
            Some(p) => match config {
                None => Err(ExtensionsError::ConfigUnreadable),
                Some(data) => match preset::parse(p, data.as_str()) {
                    Ok(v) => Ok(v),
                    Err(e) => Err(ExtensionsError::Preset(e)),
                },
            },
            None => Ok(clone_words(&self.extensions)),
        }
    }

    /// The extensions to look for: those of the named preset, read from the configuration
    /// text `config` (`None` when it could not be read), or else those given directly.
    /// They must all be made of the letters `a` to `z`.
    pub fn get_extensions(&self, config: &Option<String>) -> (r: Result<
        Vec<String>,
        ExtensionsError,
    >)
        ensures
            match r {
                Ok(v) => checked_extensions(self, text_of(config)) == Ok::<
                    Seq<Seq<char>>,
                    ExtensionsError,
                >(words(v@)),
                Err(e) => checked_extensions(self, text_of(config)) == Err::<
                    Seq<Seq<char>>,
                    ExtensionsError,
                >(e),
            },
    {
        let extensions = self.raw_get_extensions(config)?;
        if !are_extensions_valid(&extensions) {
            return Err(ExtensionsError::Invalid);
        }
        Ok(extensions)
    }

    /// The walk's options and the deletion's options.
    pub fn get_options(&self) -> (r: (CollectOptions, DeleteOptions))
        ensures
            r.0 == (CollectOptions {
                all: self.all,
                list: self.list,
                recurse: self.recurse,
                invert: self.invert,
            }),
            r.1 == (DeleteOptions { force: self.force, dry_run: self.dry_run }),
    {
        (
            CollectOptions {
                all: self.all,
                list: self.list,
                recurse: self.recurse,
                invert: self.invert,
            },
            DeleteOptions { force: self.force, dry_run: self.dry_run },
        )
    }
}

} // verus!
