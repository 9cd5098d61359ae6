//! The registry setting, kept globally per user or in a project's manifest.
use vstd::prelude::*;

use crate::error::ComposerError;

verus! {

/// The registry block: `{"packagist": {"type": ..., "url": ...}}`.
pub struct Repositories {
    pub packagist: Packagist,
}

pub struct Packagist {
    pub _type: String,
    pub url: String,
}

/// The per-user configuration.
pub struct GlobalConfig {
    pub repositories: Option<Repositories>,
}

/// The one key the `config` command knows.
pub open spec fn packagist_key() -> Seq<char> {
    "repo.packagist"@
}

/// Whether `key` is the registry key.
pub fn is_packagist_key(key: &str) -> (r: bool)
    ensures
        r == (key@ == packagist_key()),
{
    key.to_owned() == "repo.packagist".to_owned()
}

/// The registry block after setting its type and URL.
pub fn with_repo(repo: Option<Repositories>, value1: &str, value2: &str) -> (r: Repositories)
    ensures
        r.packagist._type@ == value1@,
        r.packagist.url@ == value2@,
{
    match repo {
        Some(mut repo) => {
            repo.packagist._type = value1.to_owned();
            repo.packagist.url = value2.to_owned();
            repo
        },
        None => Repositories {
            packagist: Packagist { _type: value1.to_owned(), url: value2.to_owned() },
        },
    }
}

impl GlobalConfig {
    /// A configuration with nothing set.
    pub fn empty() -> (r: Self)
        ensures
            r.repositories is None,
    {
        GlobalConfig { repositories: None }
    }

    /// Sets `key` to the registry type `value1` and URL `value2`; without a
    /// URL nothing changes. Only `repo.packagist` is known.
    pub fn set(&mut self, key: &str, value1: &str, value2: &Option<String>) -> (r: Result<
        (),
        ComposerError,
    >)
        ensures
            key@ == packagist_key() <==> r is Ok,
            r is Err ==> r == Err::<(), ComposerError>(ComposerError::UnknownConfigKey),
            !(key@ == packagist_key() && value2 is Some) ==> final(self).repositories
                == old(self).repositories,
            key@ == packagist_key() && value2 is Some ==> (final(self).repositories matches Some(
                repo,
            ) && repo.packagist._type@ == value1@ && repo.packagist.url@ == value2->Some_0@),
    {
        if !is_packagist_key(key) {
            return Err(ComposerError::UnknownConfigKey);
        }
        if let Some(value2) = value2 {
            self.set_repo(value1, value2.as_str());
        }
        Ok(())
    }

    /// Removes the setting `key`. Only `repo.packagist` is known.
    pub fn unset(&mut self, key: &str) -> (r: Result<(), ComposerError>)
        ensures
            key@ == packagist_key() <==> r is Ok,
            r is Err ==> r == Err::<(), ComposerError>(ComposerError::UnknownConfigKey)
                && final(self).repositories == old(self).repositories,
            r is Ok ==> final(self).repositories is None,
    {
        if !is_packagist_key(key) {
            return Err(ComposerError::UnknownConfigKey);
        }
        self.repositories = None;
        Ok(())
    }

    fn set_repo(&mut self, value1: &str, value2: &str)
        ensures
            final(self).repositories matches Some(repo) && repo.packagist._type@ == value1@
                && repo.packagist.url@ == value2@,
    {
        let repo = self.repositories.take();
        self.repositories = Some(with_repo(repo, value1, value2));
    }
}

} // verus!
