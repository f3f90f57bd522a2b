//! The flat engine: a plain list of indexed file paths under one root
//! directory, persisted as a single file and searched by matching a pattern
//! against each file name.
use vstd::prelude::*;

verus! {

use crate::codec::{dec_path_list, enc_path_list, decode_path_list, encode_path_list};
use vstd::string::{StrSliceExecFns, StringExecFns};

/// Whether `text` matches the regular expression `pattern`; when `pattern`
/// does not compile, whether `text` matches the literal fallback pattern
/// `None`. A function of its two arguments alone.
pub uninterp spec fn pattern_match(pattern: Seq<char>, text: Seq<char>) -> bool;

/// Relies on regex::Regex::new and regex::Regex::is_match: compiles
/// `pattern` (falling back to the always-valid literal pattern "None" when it
/// does not compile) and tests whether `text` contains a match. Compilation
/// and matching depend on the two strings alone.
#[verifier::external_body]
fn regex_match(pattern: &str, text: &str) -> (r: bool)
    ensures
        r == pattern_match(pattern@, text@),
{
    let re = regex::Regex::new(pattern).unwrap_or(regex::Regex::new("None").unwrap());
    re.is_match(text)
}

/// Position of the last path separator in `path`, or -1 when there is none.
pub open spec fn last_sep_index(path: Seq<char>) -> int
    decreases path.len(),
{
    if path.len() == 0 {
        -1
    } else if path.last() == '/' || path.last() == '\\' {
        path.len() - 1
    } else {
        last_sep_index(path.drop_last())
    }
}

/// What `last_sep_index` returns: either -1 and no separator, or the last
/// position holding one.
pub proof fn lemma_last_sep(path: Seq<char>)
    ensures
        last_sep_index(path) >= -1,
        last_sep_index(path) == -1 ==> forall|k: int|
            0 <= k < path.len() ==> path[k] != '/' && path[k] != '\\',
        last_sep_index(path) >= 0 ==> 0 <= last_sep_index(path) < path.len() && (
        path[last_sep_index(path)] == '/' || path[last_sep_index(path)] == '\\'),
        last_sep_index(path) >= 0 ==> forall|k: int|
            last_sep_index(path) < k < path.len() ==> path[k] != '/' && path[k] != '\\',
    decreases path.len(),
{
    if path.len() > 0 && path.last() != '/' && path.last() != '\\' {
        lemma_last_sep(path.drop_last());
        assert forall|k: int|
            0 <= k < path.len() - 1 implies path.drop_last()[k] == path[k] by {}
    }
}

/// The file name of a path: what follows the last separator (`/` or `\`),
/// or the whole path when it has none.
pub open spec fn spec_file_name(path: Seq<char>) -> Seq<char> {
    path.skip(last_sep_index(path) + 1)
}

/// The files among `files`, in order, whose file name matches `key`.
pub open spec fn spec_search(files: Seq<Seq<char>>, key: Seq<char>) -> Seq<Seq<char>>
    decreases files.len(),
{
    if files.len() == 0 {
        Seq::empty()
    } else {
        spec_search(files.drop_last(), key) + (if pattern_match(
            key,
            spec_file_name(files.last()),
        ) {
            seq![files.last()]
        } else {
            Seq::empty()
        })
    }
}

/// `s` with every backslash and colon removed, order kept.
pub open spec fn strip_drive(s: Seq<char>) -> Seq<char>
    decreases s.len(),
{
    if s.len() == 0 {
        Seq::empty()
    } else {
        strip_drive(s.drop_last()) + (if s.last() == '\\' || s.last() == ':' {
            Seq::empty()
        } else {
            seq![s.last()]
        })
    }
}

/// The name of the flat index file for a root directory: a fixed prefix,
/// then the root with its drive punctuation removed.
pub open spec fn spec_index_file_name(root: Seq<char>) -> Seq<char> {
    ("index ")@ + strip_drive(root)
}

/// What loading flat index data leaves in memory: the decoded path list, or
/// an empty list on absent or corrupt data.
pub open spec fn spec_load_files(data: Option<Seq<u8>>) -> Seq<Seq<char>> {
    match data {
        None => Seq::empty(),
        Some(b) => match dec_path_list(b) {
            Some(ps) => ps,
            None => Seq::empty(),
        },
    }
}

/// The file name of `s`: what follows its last separator.
fn file_name_str<'a>(s: &'a str) -> (r: &'a str)
    ensures
        r@ == spec_file_name(s@),
{
    proof {
        lemma_last_sep(s@);
    }
    let n = s.unicode_len();
    match last_sep(s) {
        Some(j) => {
            proof {
                lemma_last_sep(s@);
                assert(j < n);
            }
            let r = s.substring_char(j + 1, n);
            proof {
                assert(r@ =~= spec_file_name(s@));
            }
            r
        },
        None => {
            proof {
                assert(s@.skip(0) =~= s@);
            }
            s
        },
    }
}

/// Position of the last separator in `s`, if any.
fn last_sep(s: &str) -> (r: Option<usize>)
    ensures
        match r {
            Some(j) => j == last_sep_index(s@),
            None => last_sep_index(s@) == -1,
        },
{
    let n = s.unicode_len();
    let mut j = n;
    while j > 0
        invariant
            j <= n,
            n == s@.len(),
            forall|k: int| j <= k < n ==> s@[k] != '/' && s@[k] != '\\',
        decreases j,
    {
        let c = s.get_char(j - 1);
        if c == '/' || c == '\\' {
            proof {
                lemma_last_sep(s@);
                let lsi = last_sep_index(s@);
                if lsi < j - 1 {
                    assert(s@[j - 1] != '/' && s@[j - 1] != '\\');
                }
                if lsi > j - 1 {
                    assert(s@[lsi] != '/' && s@[lsi] != '\\');
                }
            }
            return Some(j - 1);
        }
        j -= 1;
    }
    proof {
        lemma_last_sep(s@);
        let lsi = last_sep_index(s@);
        if lsi >= 0 {
            assert(s@[lsi] != '/' && s@[lsi] != '\\');
        }
    }
    None
}

/// The flat engine's state: the indexed file paths and the root directory
/// they were walked from.
pub struct Search {
    pub indexed_files: Vec<String>,
    pub root_dir: String,
}

/// The operations of a flat file-name search engine, stated over its two
/// pieces of abstract state: the list of indexed paths and the root
/// directory.
pub trait SearchEngine: Sized {
    /// The indexed file paths, as sequences of characters, in order.
    spec fn files_view(&self) -> Seq<Seq<char>>;

    /// The root directory the index belongs to.
    spec fn root_view(&self) -> Seq<char>;

    /// A fresh engine: nothing indexed, the default root.
    fn new() -> (r: Self)
        ensures
            r.files_view() == Seq::<Seq<char>>::empty(),
            r.root_view() == ("C:\\")@,
    ;

    /// Replaces the index with the paths a directory walk discovered: every
    /// rebuild is full, the previous index is dropped first.
    fn generate_index(&mut self, entries: &Vec<String>)
        ensures
            final(self).files_view() == entries.deep_view(),
            final(self).root_view() == old(self).root_view(),
    ;

    /// The persistable form of the index: the file name it belongs under and
    /// the encoded path list.
    fn save_index(&self) -> (r: (String, Vec<u8>))
        ensures
            r.0@ == spec_index_file_name(self.root_view()),
            r.1@ == enc_path_list(self.files_view()),
            dec_path_list(r.1@) == Some(self.files_view()),
    ;

    /// Replaces the index with the decoded file data; absent or corrupt data
    /// leaves an empty index rather than an error.
    fn load_index(&mut self, data: Option<&Vec<u8>>)
        ensures
            final(self).root_view() == old(self).root_view(),
            final(self).files_view() == spec_load_files(
                match data { Some(b) => Some(b@), None => None },
            ),
    ;

    /// The indexed paths.
    fn get_index(&self) -> (r: &Vec<String>)
        ensures
            r.deep_view() == self.files_view(),
    ;

    /// Points the engine at another root directory; the index is untouched.
    fn set_root_dir(&mut self, root_dir: String)
        ensures
            final(self).root_view() == root_dir@,
            final(self).files_view() == old(self).files_view(),
    ;

    /// The root directory.
    fn get_root_dir(&self) -> (r: &String)
        ensures
            r@ == self.root_view(),
    ;

    /// The indexed paths whose file name matches `key`, in index order.
    fn search(&self, key: &String) -> (r: Vec<String>)
        ensures
            r.deep_view() == spec_search(self.files_view(), key@),
    ;
}

impl SearchEngine for Search {
    open spec fn files_view(&self) -> Seq<Seq<char>> {
        self.indexed_files.deep_view()
    }

    open spec fn root_view(&self) -> Seq<char> {
        self.root_dir@
    }

    fn new() -> (r: Search) {
        let r = Search { indexed_files: Vec::new(), root_dir: String::from_str("C:\\") };
        proof {
            assert(r.indexed_files.deep_view() =~= Seq::<Seq<char>>::empty());
        }
        r
    }

    fn generate_index(&mut self, entries: &Vec<String>) {
        let fresh = entries.clone();
        proof {
            assert forall|i: int| 0 <= i < entries@.len() implies fresh@[i]@ == entries@[i]@ by {}
            assert(fresh.deep_view() =~= entries.deep_view());
        }
        self.indexed_files = fresh;
    }

    fn save_index(&self) -> (r: (String, Vec<u8>)) {
        let mut name = String::new();
        name.append("index ");
        let n = self.root_dir.as_str().unicode_len();
        let ghost rv = self.root_dir@;
        let mut i: usize = 0;
        proof {
            assert(strip_drive(rv.take(0)) =~= Seq::<char>::empty());
            assert(name@ =~= ("index ")@ + strip_drive(rv.take(0)));
        }
        while i < n
            invariant
                i <= n,
                n == rv.len(),
                rv == self.root_dir@,
                name@ == ("index ")@ + strip_drive(rv.take(i as int)),
            decreases n - i,
        {
            let c = self.root_dir.as_str().get_char(i);
            if !(c == '\\' || c == ':') {
                name.push(c);
            }
            proof {
                assert(rv.take(i + 1).drop_last() =~= rv.take(i as int));
                assert(rv.take(i + 1).last() == rv[i as int]);
                assert(name@ =~= ("index ")@ + strip_drive(rv.take(i + 1)));
            }
            i += 1;
        }
        proof {
            assert(rv.take(n as int) =~= rv);
        }
        let bytes = encode_path_list(&self.indexed_files);
        proof {
            crate::codec::lemma_path_list_roundtrip(self.indexed_files.deep_view());
        }
        (name, bytes)
    }

    fn load_index(&mut self, data: Option<&Vec<u8>>) {
        match data {
            None => {
                self.indexed_files = Vec::new();
                proof {
                    assert(self.indexed_files.deep_view() =~= Seq::<Seq<char>>::empty());
                }
            },
            Some(b) => {
                match decode_path_list(b) {
                    Some(v) => {
                        self.indexed_files = v;
                    },
                    None => {
                        self.indexed_files = Vec::new();
                        proof {
                            assert(self.indexed_files.deep_view() =~= Seq::<Seq<char>>::empty());
                        }
                    },
                }
            },
        }
    }

    fn get_index(&self) -> (r: &Vec<String>) {
        &self.indexed_files
    }

    fn set_root_dir(&mut self, root_dir: String) {
        self.root_dir = root_dir;
    }

    fn get_root_dir(&self) -> (r: &String) {
        &self.root_dir
    }

    fn search(&self, key: &String) -> (r: Vec<String>) {
        let mut found: Vec<String> = Vec::new();
        let ghost dv = self.indexed_files.deep_view();
        let n = self.indexed_files.len();
        let mut i: usize = 0;
        proof {
            assert(dv.take(0) =~= Seq::<Seq<char>>::empty());
            assert(found.deep_view() =~= spec_search(dv.take(0), key@));
        }
        while i < n
            invariant
                i <= n,
                n == self.indexed_files@.len(),
                dv == self.indexed_files.deep_view(),
                dv.len() == n,
                found.deep_view() == spec_search(dv.take(i as int), key@),
            decreases n - i,
        {
            let f = &self.indexed_files[i];
            let ghost before = found.deep_view();
            let fname = file_name_str(f.as_str());
            if regex_match(key.as_str(), fname) {
                found.push(f.clone());
                proof {
                    assert(found.deep_view() =~= before.push(dv[i as int]));
                }
            }
            proof {
                assert(dv.take(i + 1).drop_last() =~= dv.take(i as int));
                assert(dv.take(i + 1).last() == dv[i as int]);
                assert(found.deep_view() =~= spec_search(dv.take(i + 1), key@));
            }
            i += 1;
        }
        proof {
            assert(dv.take(n as int) =~= dv);
        }
        found
    }
}

} // verus!
