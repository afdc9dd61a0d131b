//! The entries of an AVL tree and the report that lists them.

use crate::hexes::{copy_bytes, hex_encode, hex_text};
use crate::json::{
    array, fields_view, items_view, lemma_lookup_at, no_fields, object, put, Json, JsonView,
};
use vstd::prelude::*;

verus! {

/// A node of a tree with all that hangs below it.
pub enum TreeNode {
    /// Two subtrees, left and right.
    Internal(Box<TreeNode>, Box<TreeNode>),
    Leaf { key: Vec<u8>, value: Vec<u8> },
    /// A node of which only the label is known.
    LabelOnly,
}

/// The keys and values of the leaves of a tree, from left to right.
pub open spec fn leaves(node: TreeNode) -> Seq<(Seq<u8>, Seq<u8>)>
    decreases node,
{
    match node {
        TreeNode::Internal(left, right) => leaves(*left) + leaves(*right),
        TreeNode::Leaf { key, value } => seq![(key@, value@)],
        TreeNode::LabelOnly => Seq::empty(),
    }
}

/// Whether a key marks an end of the key space: all its bytes are 0, or all
/// are 255.
pub open spec fn is_sentinel(key: Seq<u8>, key_length: nat) -> bool {
    key == Seq::new(key_length, |i: int| 0u8) || key == Seq::new(key_length, |i: int| 255u8)
}

/// The entries of a tree: its leaves without those that mark an end of the
/// key space.
pub open spec fn tree_entries(node: TreeNode, key_length: nat) -> Seq<(Seq<u8>, Seq<u8>)> {
    leaves(node).filter(|e: (Seq<u8>, Seq<u8>)| !is_sentinel(e.0, key_length))
}

/// The keys and values of a list.
pub open spec fn entries_view(entries: Seq<(Vec<u8>, Vec<u8>)>) -> Seq<(Seq<u8>, Seq<u8>)> {
    Seq::new(entries.len(), |i: int| (entries[i].0@, entries[i].1@))
}

/// Whether a key consists of the given byte, at the given length.
fn is_all(key: &Vec<u8>, byte: u8, key_length: usize) -> (r: bool)
    ensures
        r == (key@ == Seq::new(key_length as nat, |i: int| byte)),
{
    if key.len() != key_length {
        return false;
    }
    let mut i: usize = 0;
    while i < key.len()
        invariant
            i <= key@.len(),
            key@.len() == key_length,
            forall|j: int| 0 <= j < i ==> key@[j] == byte,
        decreases key@.len() - i,
    {
        if key[i] != byte {
            assert(key@[i as int] != Seq::new(key_length as nat, |i: int| byte)[i as int]);
            return false;
        }
        i = i + 1;
    }
    assert(key@ =~= Seq::new(key_length as nat, |i: int| byte));
    true
}

/// Appends the entries of a tree, from left to right, without the leaves that
/// mark an end of the key space.
pub fn collect_entries(node: &TreeNode, key_length: usize, out: &mut Vec<(Vec<u8>, Vec<u8>)>)
    ensures
        entries_view(final(out)@) == entries_view(old(out)@) + tree_entries(
            *node,
            key_length as nat,
        ),
    decreases node,
{
    let ghost pred = |e: (Seq<u8>, Seq<u8>)| !is_sentinel(e.0, key_length as nat);
    match node {
        TreeNode::Internal(left, right) => {
            collect_entries(left, key_length, out);
            collect_entries(right, key_length, out);
            proof {
                Seq::filter_distributes_over_add(leaves(**left), leaves(**right), pred);
                assert(entries_view(out@) =~= entries_view(old(out)@) + tree_entries(
                    *node,
                    key_length as nat,
                ));
            }
        },
        TreeNode::Leaf { key, value } => {
            let ghost leaf = (key@, value@);
            proof {
                reveal_with_fuel(Seq::filter, 2);
                assert(seq![leaf].drop_last() =~= Seq::empty());
                assert(seq![leaf].filter(pred) =~= if pred(leaf) {
                    seq![leaf]
                } else {
                    Seq::empty()
                });
            }
            if is_all(key, 0, key_length) || is_all(key, 255, key_length) {
                assert(entries_view(out@) =~= entries_view(old(out)@) + tree_entries(
                    *node,
                    key_length as nat,
                ));
                return;
            }
            out.push((copy_bytes(key), copy_bytes(value)));
            assert(entries_view(out@) =~= entries_view(old(out)@) + tree_entries(
                *node,
                key_length as nat,
            ));
        },
        TreeNode::LabelOnly => {
            proof {
                reveal_with_fuel(Seq::filter, 1);
                assert(entries_view(out@) =~= entries_view(old(out)@) + tree_entries(
                    *node,
                    key_length as nat,
                ));
            }
        },
    }
}

// ------------------------------------------------------------------- report

/// The state that a report describes.
pub struct TreeState {
    pub block_height: u32,
    /// The digest of the tree.
    pub digest: Vec<u8>,
    /// How many versions the storage can go back to.
    pub version_count: usize,
    /// The digest of the current version, where there is one.
    pub version: Option<Vec<u8>>,
}

/// The length of the keys of the tree.
pub const KEY_LENGTH: usize = 32;

/// One entry in a report.
pub open spec fn entry_view(entry: (Seq<u8>, Seq<u8>)) -> JsonView {
    JsonView::Object(
        seq![
            ("key"@, JsonView::Text(hex_text(entry.0))),
            ("value"@, JsonView::Text(hex_text(entry.1))),
        ],
    )
}

/// The description of the state in a report.
pub open spec fn meta_view(state: TreeState) -> JsonView {
    JsonView::Object(
        seq![
            ("block_height"@, JsonView::Unsigned(state.block_height as u64)),
            ("tree_digest"@, JsonView::Text(hex_text(state.digest@))),
            ("version_count"@, JsonView::Unsigned(state.version_count as u64)),
            (
                "current_version_digest"@,
                match state.version {
                    Some(version) => JsonView::Text(hex_text(version@)),
                    None => JsonView::Null,
                },
            ),
        ],
    )
}

/// The report of a tree: its state and all its entries.
pub open spec fn report_view(state: TreeState, entries: Seq<(Seq<u8>, Seq<u8>)>) -> JsonView {
    JsonView::Object(
        seq![
            ("meta"@, meta_view(state)),
            ("key_length"@, JsonView::Unsigned(KEY_LENGTH as u64)),
            ("value_length"@, JsonView::Null),
            (
                "entries"@,
                JsonView::Array(Seq::new(entries.len(), |i: int| entry_view(entries[i]))),
            ),
        ],
    )
}

/// Writes one entry.
fn entry_json(entry: &(Vec<u8>, Vec<u8>)) -> (r: Json)
    ensures
        r@ == entry_view((entry.0@, entry.1@)),
{
    let mut members: Vec<(String, Json)> = no_fields();
    put(&mut members, "key", Json::Text(hex_encode(entry.0.as_slice())));
    put(&mut members, "value", Json::Text(hex_encode(entry.1.as_slice())));
    assert(fields_view(members@) =~= entry_view((entry.0@, entry.1@))->Object_0);
    object(members)
}

/// Writes the description of the state.
fn meta_json(state: &TreeState) -> (r: Json)
    ensures
        r@ == meta_view(*state),
{
    let version: Json = match &state.version {
        Some(version) => Json::Text(hex_encode(version.as_slice())),
        None => Json::Null,
    };
    let mut members: Vec<(String, Json)> = no_fields();
    put(&mut members, "block_height", Json::Unsigned(state.block_height as u64));
    put(&mut members, "tree_digest", Json::Text(hex_encode(state.digest.as_slice())));
    put(&mut members, "version_count", Json::Unsigned(state.version_count as u64));
    put(&mut members, "current_version_digest", version);
    assert(fields_view(members@) =~= meta_view(*state)->Object_0);
    object(members)
}

/// The report of a tree: the state that it is in and its entries.
pub open spec fn tree_report(root: TreeNode, state: TreeState) -> JsonView {
    report_view(state, tree_entries(root, KEY_LENGTH as nat))
}

/// Reports the entries of a tree and the state that it is in.
pub fn dump_tree(root: &TreeNode, state: &TreeState) -> (r: Json)
    ensures
        r@ == tree_report(*root, *state),
{
    let mut entries: Vec<(Vec<u8>, Vec<u8>)> = Vec::new();
    assert(entries_view(entries@) =~= Seq::empty());
    collect_entries(root, KEY_LENGTH, &mut entries);
    let ghost all = tree_entries(*root, KEY_LENGTH as nat);
    assert(entries_view(entries@) =~= all);
    let ghost view = Seq::new(all.len(), |i: int| entry_view(all[i]));
    let mut items: Vec<Json> = Vec::new();
    let mut i: usize = 0;
    while i < entries.len()
        invariant
            i <= entries@.len(),
            entries_view(entries@) == all,
            view == Seq::new(all.len(), |i: int| entry_view(all[i])),
            items_view(items@) =~= view.take(i as int),
        decreases entries@.len() - i,
    {
        let item: Json = entry_json(&entries[i]);
        assert(all[i as int] == (entries@[i as int].0@, entries@[i as int].1@));
        let ghost before = items@;
        items.push(item);
        assert(items_view(items@) =~= items_view(before).push(item@));
        i = i + 1;
    }
    assert(view.take(i as int) =~= view);
    let mut members: Vec<(String, Json)> = no_fields();
    put(&mut members, "meta", meta_json(state));
    put(&mut members, "key_length", Json::Unsigned(KEY_LENGTH as u64));
    put(&mut members, "value_length", Json::Null);
    put(&mut members, "entries", array(items));
    assert(fields_view(members@) =~= report_view(*state, all)->Object_0);
    object(members)
}

/// Every leaf of a tree is among its entries, unless it marks an end of the
/// key space; no entry does, and each entry is a leaf.
pub proof fn law_entries(node: TreeNode, key_length: nat, entry: (Seq<u8>, Seq<u8>))
    ensures
        tree_entries(node, key_length).contains(entry) <==> leaves(node).contains(entry)
            && !is_sentinel(entry.0, key_length),
{
    let pred = |e: (Seq<u8>, Seq<u8>)| !is_sentinel(e.0, key_length);
    lemma_filtered(leaves(node), pred, entry);
}

/// Filtering keeps just the items that meet the condition.
proof fn lemma_filtered(
    items: Seq<(Seq<u8>, Seq<u8>)>,
    pred: spec_fn((Seq<u8>, Seq<u8>)) -> bool,
    item: (Seq<u8>, Seq<u8>),
)
    ensures
        items.filter(pred).contains(item) <==> items.contains(item) && pred(item),
    decreases items.len(),
{
    reveal_with_fuel(Seq::filter, 1);
    if items.len() > 0 {
        let past = items.drop_last();
        let kept = past.filter(pred);
        lemma_filtered(past, pred, item);
        assert(items =~= past.push(items.last()));
        if items.contains(item) && item != items.last() {
            let j = choose|j: int| 0 <= j < items.len() && items[j] == item;
            assert(past[j] == item);
        }
        if past.contains(item) {
            let j = choose|j: int| 0 <= j < past.len() && past[j] == item;
            assert(items[j] == item);
        }
        assert(items[items.len() - 1] == items.last());
        if pred(items.last()) {
            let now = kept.push(items.last());
            assert(items.filter(pred) == now);
            assert(now[kept.len() as int] == items.last());
            if kept.contains(item) {
                let j = choose|j: int| 0 <= j < kept.len() && kept[j] == item;
                assert(now[j] == item);
            }
            if now.contains(item) && item != items.last() {
                let j = choose|j: int| 0 <= j < now.len() && now[j] == item;
                assert(kept[j] == item);
            }
        }
    }
}

/// The entries of a node are those of its left subtree and behind them those of
/// its right. A leaf is an entry unless its key has the length of the keys and
/// all its bytes are 0, or all are 255. Where only a label is known there are no
/// entries.
pub proof fn law_entries_in_order(
    left: TreeNode,
    right: TreeNode,
    key: Vec<u8>,
    value: Vec<u8>,
    key_length: nat,
)
    ensures
        tree_entries(TreeNode::Internal(Box::new(left), Box::new(right)), key_length)
            == tree_entries(left, key_length) + tree_entries(right, key_length),
        ({
            let sentinel = key@.len() == key_length && ((forall|i: int|
                0 <= i < key@.len() ==> #[trigger] key@[i] == 0) || (forall|i: int|
                0 <= i < key@.len() ==> #[trigger] key@[i] == 255));
            let entries = tree_entries(TreeNode::Leaf { key, value }, key_length);
            &&& sentinel ==> entries.len() == 0
            &&& !sentinel ==> entries.len() == 1 && entries[0] == (key@, value@)
        }),
        tree_entries(TreeNode::LabelOnly, key_length).len() == 0,
{
    let pred = |e: (Seq<u8>, Seq<u8>)| !is_sentinel(e.0, key_length);
    Seq::filter_distributes_over_add(leaves(left), leaves(right), pred);
    let leaf = (key@, value@);
    reveal_with_fuel(Seq::filter, 2);
    assert(seq![leaf].drop_last() =~= Seq::empty());
    if key@.len() == key_length {
        if forall|i: int| 0 <= i < key@.len() ==> #[trigger] key@[i] == 0 {
            assert(key@ =~= Seq::new(key_length, |i: int| 0u8));
        }
        if forall|i: int| 0 <= i < key@.len() ==> #[trigger] key@[i] == 255 {
            assert(key@ =~= Seq::new(key_length, |i: int| 255u8));
        }
    }
    assert(tree_entries(TreeNode::Leaf { key, value }, key_length) =~= if pred(leaf) {
        seq![leaf]
    } else {
        Seq::empty()
    });
}

/// A report names the state by its own members, lists every entry of the tree in
/// its place with key and value in hexadecimal, and says that keys have 32 bytes
/// and values no fixed length.
pub proof fn law_report(root: TreeNode, state: TreeState)
    ensures
        ({
            let entries = tree_entries(root, 32);
            let report = tree_report(root, state);
            let version = report.get2("meta"@, "current_version_digest"@);
            &&& report.get2("meta"@, "block_height"@) == Some(
                JsonView::Unsigned(state.block_height as u64),
            )
            &&& report.get2("meta"@, "tree_digest"@) == Some(
                JsonView::Text(hex_text(state.digest@)),
            )
            &&& report.get2("meta"@, "version_count"@) == Some(
                JsonView::Unsigned(state.version_count as u64),
            )
            &&& state.version is Some ==> version == Some(
                JsonView::Text(hex_text(state.version->0@)),
            )
            &&& state.version is None ==> version == Some(JsonView::Null)
            &&& report.get("key_length"@) == Some(JsonView::Unsigned(32))
            &&& report.get("value_length"@) == Some(JsonView::Null)
            &&& report.get("entries"@) matches Some(JsonView::Array(items)) && {
                &&& items.len() == entries.len()
                &&& forall|i: int|
                    0 <= i < items.len() ==> {
                        &&& (#[trigger] items[i]).get("key"@) == Some(
                            JsonView::Text(hex_text(entries[i].0)),
                        )
                        &&& items[i].get("value"@) == Some(
                            JsonView::Text(hex_text(entries[i].1)),
                        )
                    }
            }
        }),
{
    let entries = tree_entries(root, 32);
    reveal_strlit("meta");
    reveal_strlit("key_length");
    reveal_strlit("value_length");
    reveal_strlit("entries");
    reveal_strlit("block_height");
    reveal_strlit("tree_digest");
    reveal_strlit("version_count");
    reveal_strlit("current_version_digest");
    reveal_strlit("key");
    reveal_strlit("value");
    assert("meta"@.len() == 4 && "key_length"@.len() == 10 && "value_length"@.len() == 12
        && "entries"@.len() == 7);
    assert("block_height"@.len() == 12 && "tree_digest"@.len() == 11 && "version_count"@.len() == 13
        && "current_version_digest"@.len() == 22);
    assert("key"@.len() == 3 && "value"@.len() == 5);
    let fields = report_view(state, entries)->Object_0;
    lemma_lookup_at(fields, "meta"@, 0);
    lemma_lookup_at(fields, "key_length"@, 1);
    lemma_lookup_at(fields, "value_length"@, 2);
    lemma_lookup_at(fields, "entries"@, 3);
    let members = meta_view(state)->Object_0;
    lemma_lookup_at(members, "block_height"@, 0);
    lemma_lookup_at(members, "tree_digest"@, 1);
    lemma_lookup_at(members, "version_count"@, 2);
    lemma_lookup_at(members, "current_version_digest"@, 3);
    assert forall|e: (Seq<u8>, Seq<u8>)|
        (#[trigger] entry_view(e)).get("key"@) == Some(JsonView::Text(hex_text(e.0)))
            && entry_view(e).get("value"@) == Some(JsonView::Text(hex_text(e.1))) by {
        lemma_lookup_at(entry_view(e)->Object_0, "key"@, 0);
        lemma_lookup_at(entry_view(e)->Object_0, "value"@, 1);
    }
}

} // verus!
