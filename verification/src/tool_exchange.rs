use vstd::prelude::*;
use crate::text::{prefix, take_chars};
use crate::turn::{is_write, writes};

verus! {

/// Longest note or path kept in a compact record, in characters.
pub const MAX_NOTE_CHARS: usize = 160;

/// Why a round of tool calls cannot be recorded.
#[derive(Debug, Clone, Copy, PartialEq, Eq)]
pub enum ExchangeError {
    NoCalls,
    Incomplete,
    MissingName,
    MissingResult,
}

impl ExchangeError {
    pub fn message(&self) -> (text: &'static str)
        ensures
            text@ == match self {
                ExchangeError::NoCalls => "Tour d'outils sans appels"@,
                ExchangeError::Incomplete => "Tour d'outils incomplet"@,
                ExchangeError::MissingName => "Nom d'outil absent"@,
                ExchangeError::MissingResult => "Résultat d'outil absent"@,
            },
    {
        match self {
            ExchangeError::NoCalls => "Tour d'outils sans appels",
            ExchangeError::Incomplete => "Tour d'outils incomplet",
            ExchangeError::MissingName => "Nom d'outil absent",
            ExchangeError::MissingResult => "Résultat d'outil absent",
        }
    }
}

/// A round needs at least one call and exactly one result per call.
pub fn check_calls(calls: usize, results: usize) -> (r: Result<(), ExchangeError>)
    ensures
        r is Ok <==> (calls > 0 && calls == results),
        r is Err ==> r == Err::<(), ExchangeError>(ExchangeError::Incomplete),
{
    if calls == 0 || calls != results {
        return Err(ExchangeError::Incomplete);
    }
    Ok(())
}

/// A text cut to `limit` characters, when there is one.
pub fn limited(value: Option<&str>, limit: usize) -> (r: Option<String>)
    ensures
        r is Some == value is Some,
        r matches Some(t) ==> t@ == prefix(value->0@, limit as nat),
{
    match value {
        Some(text) => Some(take_chars(text, limit)),
        None => None,
    }
}

/// What the compact record keeps of one tool call.
pub struct CallDigest {
    pub tool: String,
    pub write: bool,
    pub ok: bool,
    pub path: Option<String>,
    pub error: Option<String>,
    pub sample_paths: Vec<Option<String>>,
    pub sample_files: Vec<String>,
}

/// The first `n` elements of `s`.
pub open spec fn first<A>(s: Seq<A>, n: nat) -> Seq<A> {
    if n < s.len() {
        s.take(n as int)
    } else {
        s
    }
}

/// The file names kept from the first five entries of a listing: the entries that are text,
/// each cut to 160 characters.
pub open spec fn kept_files(entries: Seq<Option<String>>) -> Seq<Seq<char>>
    decreases entries.len(),
{
    if entries.len() == 0 {
        Seq::empty()
    } else {
        match entries.last() {
            Some(t) => kept_files(entries.drop_last()).push(prefix(t@, 160)),
            None => kept_files(entries.drop_last()),
        }
    }
}

fn view_opt(o: &Option<String>) -> (r: Option<&str>)
    ensures
        r is Some == o is Some,
        r matches Some(t) ==> t@ == o->0@,
{
    match o {
        Some(t) => Some(t.as_str()),
        None => None,
    }
}

/// The digest of one call: whether the tool writes, whether its result says `ok: true`, the
/// path of the result (or else of the arguments) and the error, each cut to 160 characters;
/// the paths of the first four matches, cut the same way; and the files of the first five
/// listing entries that are text, cut the same way.
pub fn digest_call(
    name: &str,
    ok: Option<bool>,
    result_path: Option<&str>,
    argument_path: Option<&str>,
    error: Option<&str>,
    match_paths: &Vec<Option<String>>,
    files: &Vec<Option<String>>,
) -> (d: CallDigest)
    ensures
        d.tool@ == name@,
        d.write == writes(name@),
        d.ok == (ok == Some(true)),
        d.path is Some == (result_path is Some || argument_path is Some),
        d.path matches Some(p) ==> p@ == prefix(
            if result_path is Some {
                result_path->0@
            } else {
                argument_path->0@
            },
            160,
        ),
        d.error is Some == error is Some,
        d.error matches Some(e) ==> e@ == prefix(error->0@, 160),
        d.sample_paths@.len() == first(match_paths@, 4).len(),
        forall|i: int|
            0 <= i < d.sample_paths@.len() ==> {
                let src = #[trigger] first(match_paths@, 4)[i];
                &&& d.sample_paths@[i] is Some == src is Some
                &&& d.sample_paths@[i] matches Some(t) ==> t@ == prefix(src->0@, 160)
            },
        d.sample_files@.map_values(|s: String| s@) == kept_files(first(files@, 5)),
{
    let path_source = match result_path {
        Some(p) => Some(p),
        None => argument_path,
    };
    let mut samples: Vec<Option<String>> = Vec::new();
    let mut i: usize = 0;
    let ghost src4 = first(match_paths@, 4);
    while i < match_paths.len() && i < 4
        invariant
            i <= match_paths@.len(),
            i <= 4,
            src4 == first(match_paths@, 4),
            samples@.len() == i,
            forall|k: int|
                0 <= k < i ==> {
                    let src = #[trigger] src4[k];
                    &&& samples@[k] is Some == src is Some
                    &&& samples@[k] matches Some(t) ==> t@ == prefix(src->0@, 160)
                },
        decreases match_paths@.len() - i,
    {
        proof {
            assert(src4[i as int] == match_paths@[i as int]);
        }
        samples.push(limited(view_opt(&match_paths[i]), MAX_NOTE_CHARS));
        i = i + 1;
    }
    let mut listed: Vec<String> = Vec::new();
    let mut j: usize = 0;
    let ghost src5 = first(files@, 5);
    proof {
        assert(src5.take(0) =~= Seq::<Option<String>>::empty());
        assert(listed@.map_values(|s: String| s@) =~= Seq::<Seq<char>>::empty());
    }
    while j < files.len() && j < 5
        invariant
            j <= files@.len(),
            j <= 5,
            src5 == first(files@, 5),
            j <= src5.len(),
            listed@.map_values(|s: String| s@) == kept_files(src5.take(j as int)),
        decreases files@.len() - j,
    {
        proof {
            assert(src5.take(j as int + 1).drop_last() =~= src5.take(j as int));
            assert(src5[j as int] == files@[j as int]);
        }
        match &files[j] {
            Some(t) => {
                let ghost before = listed@.map_values(|s: String| s@);
                let kept = take_chars(t.as_str(), MAX_NOTE_CHARS);
                listed.push(kept);
                proof {
                    assert(listed@.map_values(|s: String| s@) =~= before.push(prefix(t@, 160)));
                }
            },
            None => {},
        }
        j = j + 1;
    }
    proof {
        assert(samples@.len() == src4.len());
        assert(src5.take(j as int) =~= src5);
    }
    CallDigest {
        tool: String::from_str(name),
        write: is_write(name),
        ok: match ok {
            Some(true) => true,
            _ => false,
        },
        path: limited(path_source, MAX_NOTE_CHARS),
        error: limited(error, MAX_NOTE_CHARS),
        sample_paths: samples,
        sample_files: listed,
    }
}

/// Whether any call of a round writes to the project.
pub fn contains_write(digests: &Vec<CallDigest>) -> (b: bool)
    ensures
        b == exists|i: int| 0 <= i < digests@.len() && (#[trigger] digests@[i]).write,
{
    let mut i: usize = 0;
    while i < digests.len()
        invariant
            i <= digests@.len(),
            forall|k: int| 0 <= k < i ==> !(#[trigger] digests@[k]).write,
        decreases digests@.len() - i,
    {
        if digests[i].write {
            return true;
        }
        i = i + 1;
    }
    false
}

} // verus!
