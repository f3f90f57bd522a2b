//! The crawler-facing index: populates a trie from directory listings,
//! persists it in per-character shards, loads one shard back, and answers
//! exact and prefix queries against whatever is loaded.
use vstd::prelude::*;

verus! {

use crate::data::{
    Node, NodeView, children_view, find_child, lemma_children_view, lemma_find_child,
};
use vstd::string::{StrSliceExecFns, StringExecFns};

/// One discovered file: its bare name and the directory it sits in. What the
/// directory walk hands to the indexer.
pub struct FileEntry {
    pub name: String,
    pub dir: String,
}

impl View for FileEntry {
    type V = (Seq<char>, Seq<char>);

    open spec fn view(&self) -> (Seq<char>, Seq<char>) {
        (self.name@, self.dir@)
    }
}

impl DeepView for FileEntry {
    type V = (Seq<char>, Seq<char>);

    open spec fn deep_view(&self) -> (Seq<char>, Seq<char>) {
        self.view()
    }
}

/// The stored path of a file: its directory, a separator, its name.
pub open spec fn spec_full_path(dir: Seq<char>, name: Seq<char>) -> Seq<char> {
    dir + seq!['/'] + name
}

/// Hidden files are those whose name starts with a dot; they are excluded
/// from the primary index but still feed the extension index.
pub open spec fn spec_is_hidden(name: Seq<char>) -> bool {
    name.len() > 0 && name[0] == '.'
}

/// The selector restricts the crawl to names with one first character; `*`
/// accepts every non-empty name.
pub open spec fn spec_selector_matches(selector: char, name: Seq<char>) -> bool {
    name.len() > 0 && (selector == '*' || name[0] == selector)
}

/// Position of the last dot in `name`, or -1 when there is none.
pub open spec fn last_dot_index(name: Seq<char>) -> int
    decreases name.len(),
{
    if name.len() == 0 {
        -1
    } else if name.last() == '.' {
        name.len() - 1
    } else {
        last_dot_index(name.drop_last())
    }
}

/// What `last_dot_index` returns: either -1 and no dot, or the last position
/// holding a dot.
pub proof fn lemma_last_dot(name: Seq<char>)
    ensures
        last_dot_index(name) >= -1,
        last_dot_index(name) == -1 ==> forall|k: int|
            0 <= k < name.len() ==> name[k] != '.',
        last_dot_index(name) >= 0 ==> 0 <= last_dot_index(name) < name.len()
            && name[last_dot_index(name)] == '.',
        last_dot_index(name) >= 0 ==> forall|k: int|
            last_dot_index(name) < k < name.len() ==> name[k] != '.',
    decreases name.len(),
{
    if name.len() > 0 && name.last() != '.' {
        lemma_last_dot(name.drop_last());
        assert forall|k: int|
            0 <= k < name.len() - 1 implies name.drop_last()[k] == name[k] by {}
    }
}

/// The extension key of a file name: what follows the last dot when that dot
/// is not the leading character, else the whole name (files with no
/// extension are keyed by their own name).
pub open spec fn spec_ext_key(name: Seq<char>) -> Seq<char> {
    let i = last_dot_index(name);
    if i >= 1 {
        name.skip(i + 1)
    } else {
        name
    }
}

/// One crawler step on the primary index: insert the entry under its name
/// when the selector matches and the name is not hidden.
pub open spec fn spec_primary_step(
    acc: NodeView,
    e: (Seq<char>, Seq<char>),
    selector: char,
) -> NodeView {
    if spec_selector_matches(selector, e.0) && !spec_is_hidden(e.0) {
        acc.insert(e.0, spec_full_path(e.1, e.0))
    } else {
        acc
    }
}

/// The primary index built from `entries` in order, starting empty.
pub open spec fn spec_build_primary(
    entries: Seq<(Seq<char>, Seq<char>)>,
    selector: char,
) -> NodeView
    decreases entries.len(),
{
    if entries.len() == 0 {
        NodeView::empty()
    } else {
        spec_primary_step(
            spec_build_primary(entries.drop_last(), selector),
            entries.last(),
            selector,
        )
    }
}

/// One crawler step on the extension index: every named file, hidden or not,
/// is inserted under its extension key.
pub open spec fn spec_ext_step(acc: NodeView, e: (Seq<char>, Seq<char>)) -> NodeView {
    if e.0.len() > 0 {
        acc.insert(spec_ext_key(e.0), spec_full_path(e.1, e.0))
    } else {
        acc
    }
}

/// The extension index built from `entries` in order, starting empty.
pub open spec fn spec_build_ext(entries: Seq<(Seq<char>, Seq<char>)>) -> NodeView
    decreases entries.len(),
{
    if entries.len() == 0 {
        NodeView::empty()
    } else {
        spec_ext_step(spec_build_ext(entries.drop_last()), entries.last())
    }
}

/// The whole index one crawl produces: the primary index, with the extension
/// index embedded under the reserved key `.` when it holds anything. The
/// reserved key never collides: hidden names are the only ones starting with
/// a dot, and they are excluded from the primary index.
pub open spec fn spec_generate(entries: Seq<(Seq<char>, Seq<char>)>, selector: char) -> NodeView {
    let p = spec_build_primary(entries, selector);
    let x = spec_build_ext(entries);
    if x.is_empty() {
        p
    } else {
        NodeView { children: p.children.push(('.', x)), paths: p.paths }
    }
}

/// No child of `n` is keyed by the reserved extension character.
pub open spec fn no_dot_child(n: NodeView) -> bool {
    forall|i: int| 0 <= i < n.children.len() ==> (#[trigger] n.children[i]).0 != '.'
}

/// Inserting a key that does not start with a dot cannot create a dot child.
pub proof fn lemma_insert_no_dot(n: NodeView, key: Seq<char>, value: Seq<char>)
    requires
        no_dot_child(n),
        key.len() > 0,
        key[0] != '.',
    ensures
        no_dot_child(n.insert(key, value)),
{
    let m = n.insert(key, value);
    lemma_find_child(n.children, key[0]);
    let r = find_child(n.children, key[0]);
    assert forall|i: int| 0 <= i < m.children.len() implies (#[trigger] m.children[i]).0
        != '.' by {
        if r >= 0 {
            assert(m.children[i].0 == n.children[i].0);
        } else {
            if i < n.children.len() {
                assert(m.children[i] == n.children[i]);
            } else {
                assert(m.children[i].0 == key[0]);
            }
        }
    }
}

/// The primary index holds no dot child and is well-formed.
pub proof fn lemma_build_primary_wf(entries: Seq<(Seq<char>, Seq<char>)>, selector: char)
    ensures
        spec_build_primary(entries, selector).wf(),
        no_dot_child(spec_build_primary(entries, selector)),
    decreases entries.len(),
{
    if entries.len() > 0 {
        lemma_build_primary_wf(entries.drop_last(), selector);
        let acc = spec_build_primary(entries.drop_last(), selector);
        let e = entries.last();
        if spec_selector_matches(selector, e.0) && !spec_is_hidden(e.0) {
            acc.lemma_insert(e.0, spec_full_path(e.1, e.0));
            lemma_insert_no_dot(acc, e.0, spec_full_path(e.1, e.0));
        }
    }
}

/// The extension index is well-formed.
pub proof fn lemma_build_ext_wf(entries: Seq<(Seq<char>, Seq<char>)>)
    ensures
        spec_build_ext(entries).wf(),
    decreases entries.len(),
{
    if entries.len() > 0 {
        lemma_build_ext_wf(entries.drop_last());
        let acc = spec_build_ext(entries.drop_last());
        let e = entries.last();
        if e.0.len() > 0 {
            acc.lemma_insert(spec_ext_key(e.0), spec_full_path(e.1, e.0));
        }
    }
}

/// The generated index is well-formed: embedding the extension index under
/// the reserved dot key collides with nothing.
pub proof fn lemma_generate_wf(entries: Seq<(Seq<char>, Seq<char>)>, selector: char)
    ensures
        spec_generate(entries, selector).wf(),
{
    lemma_build_primary_wf(entries, selector);
    lemma_build_ext_wf(entries);
    let p = spec_build_primary(entries, selector);
    let x = spec_build_ext(entries);
    if !x.is_empty() {
        let m = spec_generate(entries, selector);
        assert(m.children == p.children.push(('.', x)));
        assert forall|i: int, j: int|
            0 <= i < j < m.children.len() implies (#[trigger] m.children[i]).0 != (
        #[trigger] m.children[j]).0 by {
            if j == m.children.len() - 1 {
                assert(m.children[i] == p.children[i]);
                assert(p.children[i].0 != '.');
            } else {
                assert(m.children[i] == p.children[i]);
                assert(m.children[j] == p.children[j]);
            }
        }
        assert forall|i: int|
            0 <= i < m.children.len() implies (#[trigger] m.children[i]).1.wf() && !(
        #[trigger] m.children[i]).1.is_empty() by {
            if i < m.children.len() - 1 {
                assert(m.children[i] == p.children[i]);
            }
        }
    }
}

/// A full rebuild from the same listing always produces the same index,
/// whatever was in memory before: crawling is idempotent.
pub proof fn lemma_generate_idempotent(
    entries: Seq<(Seq<char>, Seq<char>)>,
    selector: char,
    a: NodeView,
    b: NodeView,
)
    requires
        a == spec_generate(entries, selector),
        b == spec_generate(entries, selector),
    ensures
        a == b,
{
}

/// The crawler-facing engine: the in-memory trie index, the results of the
/// last query, and the character bucket currently loaded.
pub struct Search {
    pub index: Node,
    pub search_results: Vec<String>,
    pub section: char,
}

impl Search {
    /// Creates an engine with an empty index and no loaded bucket.
    pub fn new() -> (r: Search)
        ensures
            r.index@ == NodeView::empty(),
            r.index@.wf(),
            r.search_results.deep_view() == Seq::<Seq<char>>::empty(),
            r.section == ' ',
    {
        let r = Search { index: Node::new(), search_results: Vec::new(), section: ' ' };
        proof {
            assert(r.search_results.deep_view() =~= Seq::<Seq<char>>::empty());
        }
        r
    }

    /// Rebuilds the index from the crawl listing `entries`, restricted to
    /// names whose first character is `selector` (`*` means unrestricted).
    /// The index is cleared first: every build is a full rebuild, and the
    /// result depends on the listing and selector alone. Hidden names are
    /// kept out of the primary index but feed the extension index, which is
    /// embedded under the reserved key `.`.
    pub fn generate_index(&mut self, entries: &Vec<FileEntry>, selector: char)
        ensures
            final(self).index@ == spec_generate(entries.deep_view(), selector),
            final(self).index@.wf(),
            final(self).section == old(self).section,
            final(self).search_results == old(self).search_results,
    {
        let ghost dv = entries.deep_view();
        self.index.clear();
        let mut ext = Node::new();
        let mut i: usize = 0;
        proof {
            assert(dv.take(0) =~= Seq::<(Seq<char>, Seq<char>)>::empty());
        }
        while i < entries.len()
            invariant
                i <= entries.len(),
                dv == entries.deep_view(),
                dv.len() == entries@.len(),
                self.index@ == spec_build_primary(dv.take(i as int), selector),
                ext@ == spec_build_ext(dv.take(i as int)),
                self.section == old(self).section,
                self.search_results == old(self).search_results,
            decreases entries.len() - i,
        {
            let ghost pre_primary = self.index@;
            let ghost pre_ext = ext@;
            let e = &entries[i];
            proof {
                assert(dv[i as int] == (e.name@, e.dir@));
            }
            let name_len = e.name.as_str().unicode_len();
            let mut hidden = false;
            let mut matched = false;
            if name_len > 0 {
                let f = e.name.as_str().get_char(0);
                hidden = f == '.';
                matched = selector == '*' || f == selector;
            }
            if matched && !hidden {
                let mut full = e.dir.clone();
                full.append("/");
                full.append(e.name.as_str());
                proof {
                    reveal_strlit("/");
                    assert(("/")@ =~= seq!['/']);
                    assert(full@ == spec_full_path(e.dir@, e.name@));
                }
                self.index.insert(e.name.as_str(), full);
            }
            if name_len > 0 {
                let mut full = e.dir.clone();
                full.append("/");
                full.append(e.name.as_str());
                proof {
                    reveal_strlit("/");
                    assert(("/")@ =~= seq!['/']);
                    assert(full@ == spec_full_path(e.dir@, e.name@));
                }
                match last_dot(e.name.as_str()) {
                    Some(j) => {
                        proof {
                            lemma_last_dot(e.name@);
                        }
                        if j >= 1 {
                            let key = e.name.as_str().substring_char(j + 1, name_len);
                            proof {
                                assert(key@ =~= spec_ext_key(e.name@));
                            }
                            ext.insert(key, full);
                        } else {
                            proof {
                                assert(spec_ext_key(e.name@) == e.name@);
                            }
                            ext.insert(e.name.as_str(), full);
                        }
                    },
                    None => {
                        proof {
                            assert(spec_ext_key(e.name@) == e.name@);
                        }
                        ext.insert(e.name.as_str(), full);
                    },
                }
            }
            proof {
                assert(dv.take(i + 1).drop_last() =~= dv.take(i as int));
                assert(dv.take(i + 1).last() == dv[i as int]);
                assert(self.index@ == spec_primary_step(pre_primary, dv[i as int], selector));
                assert(ext@ == spec_ext_step(pre_ext, dv[i as int]));
            }
            i += 1;
        }
        proof {
            assert(dv.take(dv.len() as int) =~= dv);
        }
        if !ext.is_empty() {
            let ghost pre = self.index@;
            let ghost pre_children = self.index.children@;
            let ghost extv = ext@;
            self.index.children.push(('.', ext));
            proof {
                lemma_children_view(pre_children);
                lemma_children_view(self.index.children@);
                assert(self.index.children@ =~= pre_children.push(('.', ext)));
                assert(self.index@.children =~= pre.children.push(('.', extv)));
                assert(self.index@ =~= spec_generate(dv, selector));
            }
        }
        proof {
            lemma_generate_wf(dv, selector);
        }
    }
}

/// What a query yields against `index`: a trailing `?` asks for the whole
/// subtree at the remaining prefix, pre-order; otherwise the paths stored at
/// exactly the key. `None` is the not-found signal: the key (or prefix) walks
/// off the tree. A key beginning with the reserved extension character
/// descends into the embedded extension index like any other.
pub open spec fn spec_query(index: NodeView, text: Seq<char>) -> Option<Seq<Seq<char>>> {
    let wild = text.len() > 0 && text.last() == '?';
    let key = if wild {
        text.drop_last()
    } else {
        text
    };
    match index.get(key) {
        None => None,
        Some(n) => Some(
            if wild {
                n.collect()
            } else {
                n.paths
            },
        ),
    }
}

/// The wildcard query at a prefix yields a superset of the exact query
/// there: the exact results stand first, in the same order, and the two
/// queries succeed on exactly the same prefixes.
pub proof fn lemma_prefix_query_superset(index: NodeView, key: Seq<char>)
    requires
        key.len() == 0 || key.last() != '?',
    ensures
        spec_query(index, key.push('?')) is Some <==> spec_query(index, key) is Some,
        spec_query(index, key.push('?')) matches Some(w) ==> spec_query(index, key) matches Some(
            e,
        ) && w.len() >= e.len() && w.take(e.len() as int) == e,
{
    let text = key.push('?');
    assert(text.last() == '?');
    assert(text.drop_last() =~= key);
    match index.get(key) {
        None => {},
        Some(n) => {
            n.lemma_collect_prefix();
        },
    }
}

/// A query whose key is not empty finds nothing in an empty index: it fails
/// with the not-found signal rather than returning an empty success.
pub proof fn lemma_query_empty_index(index: NodeView, text: Seq<char>)
    requires
        index.is_empty(),
        text.len() >= 1,
        text.last() == '?' ==> text.len() >= 2,
    ensures
        spec_query(index, text) is None,
{
    let wild = text.len() > 0 && text.last() == '?';
    let key = if wild {
        text.drop_last()
    } else {
        text
    };
    assert(key.len() > 0);
    lemma_find_child(index.children, key[0]);
}

/// Appends clones of the paths in `ps` from position `k` on.
fn push_paths_from(ps: &Vec<String>, k: usize, out: &mut Vec<String>)
    requires
        k <= ps@.len(),
    ensures
        final(out).deep_view() == old(out).deep_view() + ps.deep_view().skip(k as int),
    decreases ps@.len() - k,
{
    let ghost dv = ps.deep_view();
    if k < ps.len() {
        out.push(ps[k].clone());
        push_paths_from(ps, k + 1, out);
        proof {
            assert(dv.skip(k as int)[0] == dv[k as int]);
            assert(dv.skip(k as int).drop_first() =~= dv.skip(k as int + 1));
            assert(dv.skip(k as int) =~= seq![dv[k as int]] + dv.skip(k as int + 1));
            assert(out.deep_view() =~= old(out).deep_view() + dv.skip(k as int));
        }
    } else {
        proof {
            assert(dv.skip(k as int) =~= Seq::<Seq<char>>::empty());
            assert(out.deep_view() =~= old(out).deep_view() + dv.skip(k as int));
        }
    }
}

/// Appends the pre-order collections of the children in `cs` from position
/// `k` on.
fn collect_children_from(cs: &Vec<(char, Node)>, k: usize, out: &mut Vec<String>)
    requires
        k <= cs@.len(),
    ensures
        final(out).deep_view() == old(out).deep_view() + crate::data::collect_children_paths(
            children_view(cs@).skip(k as int),
        ),
    decreases *cs, cs@.len() - k,
{
    let ghost cv = children_view(cs@);
    proof {
        lemma_children_view(cs@);
    }
    if k < cs.len() {
        collect_node_into(&cs[k].1, out);
        collect_children_from(cs, k + 1, out);
        proof {
            assert(cv.skip(k as int)[0] == cv[k as int]);
            assert(cv.skip(k as int).drop_first() =~= cv.skip(k as int + 1));
            assert(out.deep_view() =~= old(out).deep_view() + crate::data::collect_children_paths(
                cv.skip(k as int),
            ));
        }
    } else {
        proof {
            assert(cv.skip(k as int) =~= Seq::<(char, NodeView)>::empty());
            assert(out.deep_view() =~= old(out).deep_view() + crate::data::collect_children_paths(
                cv.skip(k as int),
            ));
        }
    }
}

/// Appends the pre-order collection of the whole subtree `n`: its own paths
/// first, then each child subtree in child order.
fn collect_node_into(n: &Node, out: &mut Vec<String>)
    ensures
        final(out).deep_view() == old(out).deep_view() + n@.collect(),
    decreases *n, 0int,
{
    proof {
        assert(n.paths.deep_view().skip(0) =~= n.paths.deep_view());
    }
    push_paths_from(&n.paths, 0, out);
    proof {
        lemma_children_view(n.children@);
        assert(children_view(n.children@).skip(0) =~= children_view(n.children@));
    }
    collect_children_from(&n.children, 0, out);
    proof {
        assert(out.deep_view() =~= old(out).deep_view() + n@.collect());
    }
}

impl Search {
    /// Answers a query against the loaded index. A trailing `?` makes it a
    /// prefix query: every path in the subtree at the remaining prefix, the
    /// exact matches first, then descendants in child order. Without the
    /// wildcard, the paths stored at exactly the key, in insertion order.
    /// Fails with the not-found signal exactly when the key or prefix walks
    /// off the tree; the results are also kept in `search_results`.
    pub fn search(&mut self, keyword: &str) -> (r: Result<Vec<String>, ()>)
        ensures
            final(self).index == old(self).index,
            final(self).section == old(self).section,
            match r {
                Ok(v) => spec_query(old(self).index@, keyword@) == Some(v.deep_view())
                    && final(self).search_results.deep_view() == v.deep_view(),
                Err(e) => spec_query(old(self).index@, keyword@) is None
                    && final(self).search_results.deep_view() == Seq::<Seq<char>>::empty(),
            },
    {
        self.search_results.clear();
        proof {
            assert(self.search_results.deep_view() =~= Seq::<Seq<char>>::empty());
        }
        let n = keyword.unicode_len();
        let wild = n > 0 && keyword.get_char(n - 1) == '?';
        let node_opt = if wild {
            let prefix = keyword.substring_char(0, n - 1);
            proof {
                assert(prefix@ =~= keyword@.drop_last());
            }
            self.index.get(prefix)
        } else {
            self.index.get(keyword)
        };
        match node_opt {
            None => Err(()),
            Some(node) => {
                let mut out: Vec<String> = Vec::new();
                if wild {
                    collect_node_into(node, &mut out);
                    proof {
                        assert(out.deep_view() =~= node@.collect());
                    }
                } else {
                    proof {
                        assert(out.deep_view() =~= Seq::<Seq<char>>::empty());
                        assert(node.paths.deep_view().skip(0) =~= node.paths.deep_view());
                    }
                    push_paths_from(&node.paths, 0, &mut out);
                    proof {
                        assert(out.deep_view() =~= node@.paths);
                    }
                }
                let copy = out.clone();
                proof {
                    assert forall|i: int| 0 <= i < out@.len() implies copy@[i]@ == out@[i]@ by {}
                    assert(copy.deep_view() =~= out.deep_view());
                }
                self.search_results = copy;
                Ok(out)
            },
        }
    }
}

/// The file name of one shard under `scope`: the bucket character between a
/// fixed prefix and a flag recording whether it is an ASCII upper-case
/// letter, so that buckets differing only in letter case get distinct files
/// even on case-insensitive filesystems.
pub open spec fn spec_shard_name(scope: Seq<char>, c: char) -> Seq<char> {
    scope + ("/data-")@ + seq![c] + (if 65 <= c as u32 <= 90 {
        ("true")@
    } else {
        ("false")@
    })
}

/// Distinct buckets are saved to distinct files, whatever the scope: the
/// bucket character stands at a fixed position in the name, and the case
/// flag keeps a lower-case and an upper-case bucket apart.
pub proof fn lemma_shard_names_distinct(scope: Seq<char>, c1: char, c2: char)
    requires
        c1 != c2,
    ensures
        spec_shard_name(scope, c1) != spec_shard_name(scope, c2),
{
    reveal_strlit("/data-");
    let n1 = spec_shard_name(scope, c1);
    let n2 = spec_shard_name(scope, c2);
    let p = scope.len() + ("/data-")@.len();
    assert(n1[p as int] == c1);
    assert(n2[p as int] == c2);
}

/// Builds the file name of the shard for bucket `c` under `scope`.
pub fn shard_file_name(scope: &str, c: char) -> (r: String)
    ensures
        r@ == spec_shard_name(scope@, c),
{
    let mut name = String::new();
    name.append(scope);
    name.append("/data-");
    name.push(c);
    if crate::is_upper_ascii(c) {
        name.append("true");
    } else {
        name.append("false");
    }
    proof {
        assert(name@ =~= spec_shard_name(scope@, c));
    }
    name
}

/// What loading a shard leaves in memory: on readable, well-formed,
/// non-empty shard data, a fresh index holding that subtree under the bucket
/// character; on absent or corrupt data, the empty index.
pub open spec fn spec_load(section: char, data: Option<Seq<u8>>) -> NodeView {
    match data {
        None => NodeView::empty(),
        Some(b) => match crate::codec::dec_node(b, 0) {
            None => NodeView::empty(),
            Some((nv, p)) => if p == b.len() && nv.wf() && !nv.is_empty() {
                NodeView { children: seq![(section, nv)], paths: Seq::empty() }
            } else {
                NodeView::empty()
            },
        },
    }
}

/// Saving a bucket and loading it back reproduces exactly the stored paths
/// at every key under that bucket: round-trip fidelity of the shard store.
pub proof fn lemma_save_load_roundtrip(index: NodeView, i: int)
    requires
        index.wf(),
        0 <= i < index.children.len(),
        crate::codec::bounded_node(index.children[i].1),
    ensures
        forall|k: Seq<char>|
            #![trigger index.paths_at(seq![index.children[i].0] + k)]
            spec_load(
                index.children[i].0,
                Some(crate::codec::enc_node(index.children[i].1)),
            ).paths_at(seq![index.children[i].0] + k) == index.paths_at(
                seq![index.children[i].0] + k,
            ),
{
    let c = index.children[i].0;
    let sub = index.children[i].1;
    let b = crate::codec::enc_node(sub);
    assert(b.subrange(0, b.len() as int) =~= b);
    crate::codec::lemma_dec_node_enc(b, 0, sub);
    let loaded = spec_load(c, Some(b));
    assert(loaded.children == seq![(c, sub)]);
    assert forall|k: Seq<char>|
        #![trigger index.paths_at(seq![c] + k)]
        loaded.paths_at(seq![c] + k) == index.paths_at(seq![c] + k) by {
        let key = seq![c] + k;
        assert(key.len() > 0);
        assert(key[0] == c);
        assert(key.drop_first() =~= k);
        assert(find_child(loaded.children, c) == 0);
        lemma_find_child(index.children, c);
        let r = find_child(index.children, c);
        if r == -1 {
            assert(index.children[i].0 != c);
            assert(false);
        }
        if r != i {
            assert(index.children[r].0 == c);
            assert(index.children[i].0 == c);
            if r < i {
                assert(index.children[r].0 != index.children[i].0);
            } else {
                assert(index.children[i].0 != index.children[r].0);
            }
            assert(false);
        }
        assert(loaded.get(key) == sub.get(k));
        assert(index.get(key) == sub.get(k));
    }
}

impl Node {
    /// True iff this tree is well-formed: child keys distinct, every child
    /// well-formed and non-empty, recursively.
    pub fn check_wf(&self) -> (r: bool)
        ensures
            r == self@.wf(),
        decreases *self,
    {
        proof {
            lemma_children_view(self.children@);
        }
        let n = self.children.len();
        let mut i: usize = 0;
        while i < n
            invariant
                i <= n,
                n == self.children@.len(),
                forall|a: int, b: int|
                    0 <= a < b < n && a < i ==> (#[trigger] self@.children[a]).0 != (
                    #[trigger] self@.children[b]).0,
                self@.children.len() == n,
                forall|a: int|
                    0 <= a < n ==> (#[trigger] self@.children[a]).0 == self.children@[a].0,
            decreases n - i,
        {
            let mut j: usize = i + 1;
            while j < n
                invariant
                    i < j <= n,
                    n == self.children@.len(),
                    self@.children.len() == n,
                    forall|b: int| i < b < j ==> (#[trigger] self@.children[b]).0 != self@.children[i as int].0,
                    forall|a: int|
                        0 <= a < n ==> (#[trigger] self@.children[a]).0 == self.children@[a].0,
                decreases n - j,
            {
                if self.children[i].0 == self.children[j].0 {
                    proof {
                        assert(self@.children[i as int].0 == self@.children[j as int].0);
                    }
                    return false;
                }
                j += 1;
            }
            i += 1;
        }
        proof {
            lemma_children_view(self.children@);
        }
        let mut k: usize = 0;
        while k < n
            invariant
                k <= n,
                n == self.children@.len(),
                self@.children.len() == n,
                forall|a: int, b: int|
                    0 <= a < b < n ==> (#[trigger] self@.children[a]).0 != (
                    #[trigger] self@.children[b]).0,
                forall|a: int|
                    0 <= a < k ==> (#[trigger] self@.children[a]).1.wf() && !(
                    #[trigger] self@.children[a]).1.is_empty(),
                forall|a: int|
                    0 <= a < n ==> #[trigger] children_view(self.children@)[a] == (
                    self.children@[a].0, self.children@[a].1@),
            decreases n - k,
        {
            let child = &self.children[k].1;
            proof {
                assert(*child == self.children@[k as int].1);
                assert(children_view(self.children@)[k as int] == (
                self.children@[k as int].0,
                self.children@[k as int].1@,
                ));
                assert(self@.children[k as int].1 == child@);
            }
            if !child.check_wf() {
                return false;
            }
            if child.is_empty() {
                return false;
            }
            k += 1;
        }
        true
    }
}

impl Search {
    /// Serializes each first-level character bucket of the index to its own
    /// shard: the file name under `scope` and the encoded bytes of that
    /// subtree. A no-op on an empty index, so that a rebuild that found
    /// nothing never clobbers prior shards; otherwise the in-memory index is
    /// cleared once the shards are handed over.
    pub fn save_index(&mut self, scope: &str) -> (shards: Vec<(String, Vec<u8>)>)
        requires
            old(self).index@.wf(),
        ensures
            final(self).index@.wf(),
            final(self).section == old(self).section,
            final(self).search_results == old(self).search_results,
            old(self).index@.is_empty() ==> shards@.len() == 0 && final(self).index
                == old(self).index,
            !old(self).index@.is_empty() ==> {
                &&& shards@.len() == old(self).index@.children.len()
                &&& (forall|i: int|
                    0 <= i < shards@.len() ==> (#[trigger] shards@[i]).0@ == spec_shard_name(
                        scope@,
                        old(self).index@.children[i].0,
                    ))
                &&& (forall|i: int|
                    0 <= i < shards@.len() ==> (#[trigger] shards@[i]).1@
                        == crate::codec::enc_node(old(self).index@.children[i].1))
                &&& (forall|i: int|
                    0 <= i < shards@.len() ==> crate::codec::bounded_node(
                        old(self).index@.children[i].1,
                    ))
                &&& final(self).index@ == NodeView::empty()
            },
    {
        if self.index.is_empty() {
            return Vec::new();
        }
        proof {
            lemma_children_view(self.index.children@);
        }
        let ghost cv = self.index@.children;
        let n = self.index.children.len();
        let mut shards: Vec<(String, Vec<u8>)> = Vec::new();
        let mut i: usize = 0;
        while i < n
            invariant
                i <= n,
                n == self.index.children@.len(),
                cv == self.index@.children,
                cv.len() == n,
                self == old(self),
                shards@.len() == i,
                forall|a: int|
                    0 <= a < i ==> (#[trigger] shards@[a]).0@ == spec_shard_name(
                        scope@,
                        cv[a].0,
                    ),
                forall|a: int|
                    0 <= a < i ==> (#[trigger] shards@[a]).1@ == crate::codec::enc_node(
                        cv[a].1,
                    ),
                forall|a: int| 0 <= a < i ==> crate::codec::bounded_node(cv[a].1),
            decreases n - i,
        {
            proof {
                lemma_children_view(self.index.children@);
            }
            let c = self.index.children[i].0;
            let name = shard_file_name(scope, c);
            let bytes = self.index.children[i].1.encode();
            shards.push((name, bytes));
            i += 1;
        }
        self.index.clear();
        shards
    }

    /// Makes `section` the loaded bucket and replaces the index with the
    /// decoded shard: a fresh root holding the decoded subtree under the
    /// bucket character. Absent data, trailing garbage, or bytes that do not
    /// decode to a well-formed non-empty subtree all leave the empty index
    /// instead: a missing shard is a normal state, never an error.
    pub fn load_index(&mut self, section: char, data: Option<&Vec<u8>>)
        ensures
            final(self).section == section,
            final(self).search_results == old(self).search_results,
            final(self).index@ == spec_load(
                section,
                match data { Some(b) => Some(b@), None => None },
            ),
            final(self).index@.wf(),
    {
        self.section = section;
        match data {
            None => {
                self.index = Node::new();
            },
            Some(b) => {
                match crate::codec::decode_node(b, 0) {
                    None => {
                        self.index = Node::new();
                    },
                    Some((nd, p)) => {
                        if p == b.len() && nd.check_wf() && !nd.is_empty() {
                            let ghost ndv = nd@;
                            let mut cvec: Vec<(char, Node)> = Vec::new();
                            cvec.push((section, nd));
                            let root = Node { children: cvec, paths: Vec::new() };
                            proof {
                                lemma_children_view(root.children@);
                                assert(root.children@.len() == 1);
                                assert(root.children@[0].0 == section);
                                assert(root.children@[0].1@ == ndv);
                                assert(root@.children[0] == (section, ndv));
                                assert(root@.children =~= seq![(section, ndv)]);
                                assert(root@.paths =~= Seq::<Seq<char>>::empty());
                            }
                            self.index = root;
                        } else {
                            self.index = Node::new();
                        }
                    },
                }
            },
        }
    }
}

/// Position of the last dot in `s`, if any.
fn last_dot(s: &str) -> (r: Option<usize>)
    ensures
        match r {
            Some(j) => j == last_dot_index(s@),
            None => last_dot_index(s@) == -1,
        },
{
    proof {
        lemma_last_dot(s@);
    }
    let n = s.unicode_len();
    let mut j = n;
    while j > 0
        invariant
            j <= n,
            n == s@.len(),
            forall|k: int| j <= k < n ==> s@[k] != '.',
        decreases j,
    {
        let c = s.get_char(j - 1);
        if c == '.' {
            proof {
                lemma_last_dot(s@);
                let ldi = last_dot_index(s@);
                if ldi < j - 1 {
                    assert(s@[j - 1] != '.');
                }
                if ldi > j - 1 {
                    assert(s@[ldi] != '.');
                }
            }
            return Some(j - 1);
        }
        j -= 1;
    }
    proof {
        lemma_last_dot(s@);
        let ldi = last_dot_index(s@);
        if ldi >= 0 {
            assert(s@[ldi] != '.');
        }
    }
    None
}

} // verus!
