//! The object model: what an object's bytes say, and the id they give it.

use crate::hash::{hex_bytes, spec_id_from_hex, spec_sha1};
use vstd::prelude::*;
use vstd::utf8::encode_utf8;

verus! {

/// The kinds of object.
#[derive(Clone, Copy, Debug, PartialEq, Eq, Structural)]
pub enum ObjectType {
    Commit,
    Tree,
    Blob,
    Tag,
    OfsDelta,
    RefDelta,
}

/// The name of an object type, as it stands in an object's header.
pub open spec fn kind_name(object_type: ObjectType) -> Seq<u8> {
    match object_type {
        ObjectType::Commit => encode_utf8("commit"@),
        ObjectType::Tree => encode_utf8("tree"@),
        ObjectType::Blob => encode_utf8("blob"@),
        ObjectType::Tag => encode_utf8("tag"@),
        ObjectType::OfsDelta => encode_utf8("ofs-delta"@),
        ObjectType::RefDelta => encode_utf8("ref-delta"@),
    }
}

/// The decimal digits of `n`, as ASCII bytes.
pub open spec fn decimal(n: nat) -> Seq<u8>
    decreases n,
{
    if n < 10 {
        seq![(0x30 + n) as u8]
    } else {
        decimal(n / 10).push((0x30 + n % 10) as u8)
    }
}

/// The header that precedes an object's bytes when its id is computed: the
/// type's name, a space, the length in decimal, and a NUL.
pub open spec fn object_header(object_type: ObjectType, len: nat) -> Seq<u8> {
    kind_name(object_type) + seq![0x20u8] + decimal(len) + seq![0u8]
}

/// The id of the object of type `object_type` with bytes `raw`: the SHA-1
/// digest of its header followed by its bytes.
pub open spec fn object_id(object_type: ObjectType, raw: Seq<u8>) -> Seq<u8> {
    spec_sha1(object_header(object_type, raw.len()) + raw)
}

/// The first place at or after `from` where `s` holds `b`; the length of `s`
/// when there is none.
pub open spec fn find_byte(s: Seq<u8>, b: u8, from: int) -> int
    decreases s.len() - from,
{
    if from < 0 || from >= s.len() {
        s.len() as int
    } else if s[from] == b {
        from
    } else {
        find_byte(s, b, from + 1)
    }
}

/// Whether `data` holds `prefix` at place `at`.
pub open spec fn holds_at(data: Seq<u8>, at: int, prefix: Seq<u8>) -> bool {
    0 <= at && at + prefix.len() <= data.len() && data.subrange(at, at + prefix.len()) == prefix
}

/// The decimal digits of `n`, as ASCII bytes.
pub fn decimal_digits(n: usize) -> (v: Vec<u8>)
    ensures
        v@ == decimal(n as nat),
    decreases n,
{
    if n < 10 {
        let mut v: Vec<u8> = Vec::new();
        v.push(0x30u8 + (n as u8));
        assert(v@ =~= decimal(n as nat));
        v
    } else {
        let mut v = decimal_digits(n / 10);
        v.push(0x30u8 + ((n % 10) as u8));
        v
    }
}

/// The first place at or after `from` where `s` holds `b`; the length of `s`
/// when there is none.
pub fn find_byte_from(s: &[u8], b: u8, from: usize) -> (at: usize)
    ensures
        at == find_byte(s@, b, from as int),
        from <= s.len() ==> from <= at <= s.len(),
        at < s.len() ==> s@[at as int] == b,
{
    if from >= s.len() {
        return s.len();
    }
    let mut i: usize = from;
    while i < s.len() && s[i] != b
        invariant
            from <= i <= s.len(),
            find_byte(s@, b, from as int) == find_byte(s@, b, i as int),
        decreases s.len() - i,
    {
        i = i + 1;
    }
    i
}

/// Whether `data` holds `prefix` at place `at`.
pub fn starts_with_at(data: &[u8], at: usize, prefix: &[u8]) -> (r: bool)
    ensures
        r == holds_at(data@, at as int, prefix@),
{
    if at > data.len() || prefix.len() > data.len() - at {
        return false;
    }
    let mut i: usize = 0;
    while i < prefix.len()
        invariant
            i <= prefix.len(),
            at + prefix.len() <= data.len(),
            forall|j: int| 0 <= j < i ==> data@[at + j] == prefix@[j],
        decreases prefix.len() - i,
    {
        if data[at + i] != prefix[i] {
            assert(data@.subrange(at as int, at + prefix.len())[i as int] != prefix@[i as int]);
            return false;
        }
        i = i + 1;
    }
    assert(data@.subrange(at as int, at + prefix.len()) =~= prefix@);
    true
}

/// A copy of the bytes of `data` from `from` up to `to`.
pub(crate) fn copy_range(data: &[u8], from: usize, to: usize) -> (v: Vec<u8>)
    requires
        from <= to <= data.len(),
    ensures
        v@ == data@.subrange(from as int, to as int),
{
    let mut v: Vec<u8> = Vec::new();
    let mut i: usize = from;
    while i < to
        invariant
            from <= i <= to <= data.len(),
            v@ == data@.subrange(from as int, i as int),
        decreases to - i,
    {
        v.push(data[i]);
        assert(v@ =~= data@.subrange(from as int, i + 1));
        i = i + 1;
    }
    v
}

/// The name of an object type, as it stands in an object's header.
pub fn kind_name_bytes(object_type: ObjectType) -> (name: &'static [u8])
    ensures
        name@ == kind_name(object_type),
{
    match object_type {
        ObjectType::Commit => "commit".as_bytes(),
        ObjectType::Tree => "tree".as_bytes(),
        ObjectType::Blob => "blob".as_bytes(),
        ObjectType::Tag => "tag".as_bytes(),
        ObjectType::OfsDelta => "ofs-delta".as_bytes(),
        ObjectType::RefDelta => "ref-delta".as_bytes(),
    }
}

/// The id of the object of type `object_type` with bytes `raw`.
pub fn compute_object_id(object_type: ObjectType, raw: &[u8]) -> (id: crate::hash::Hash)
    ensures
        id@ == object_id(object_type, raw@),
{
    let mut framed: Vec<u8> = Vec::new();
    framed.extend_from_slice(kind_name_bytes(object_type));
    framed.push(0x20u8);
    let digits = decimal_digits(raw.len());
    framed.extend_from_slice(digits.as_slice());
    framed.push(0u8);
    framed.extend_from_slice(raw);
    assert(framed@ =~= object_header(object_type, raw@.len()) + raw@);
    crate::hash::Hash::new(framed.as_slice())
}

/// An object as it goes into a pack: its bytes, its type, and the id that
/// the two give it.
#[derive(Debug, Clone, PartialEq, Eq)]
pub struct Meta {
    pub id: crate::hash::Hash,
    pub object_type: ObjectType,
    pub raw: Vec<u8>,
}

/// What a [`Meta`] holds.
pub struct MetaView {
    pub id: Seq<u8>,
    pub object_type: ObjectType,
    pub raw: Seq<u8>,
}

impl View for Meta {
    type V = MetaView;

    open spec fn view(&self) -> MetaView {
        MetaView { id: self.id@, object_type: self.object_type, raw: self.raw@ }
    }
}

/// The pack entry for the object of type `object_type` with bytes `raw`.
pub open spec fn spec_meta(object_type: ObjectType, raw: Seq<u8>) -> MetaView {
    MetaView { id: object_id(object_type, raw), object_type, raw }
}

impl Meta {
    /// Whether the id is the one that type and bytes give.
    pub open spec fn wf(&self) -> bool {
        self.id@ == object_id(self.object_type, self.raw@)
    }

    /// The pack entry for an object of the given type and bytes. The id is
    /// derived from the two and never taken from outside.
    pub fn new_from_data_with_object_type(object_type: ObjectType, data: Vec<u8>) -> (m: Meta)
        ensures
            m@ == spec_meta(object_type, data@),
            m.wf(),
    {
        let id = compute_object_id(object_type, data.as_slice());
        Meta { id, object_type, raw: data }
    }
}

/// One entry of a tree: a file or a directory, by name, with its mode and
/// the id of its object.
#[derive(Debug, Clone, PartialEq, Eq)]
pub struct TreeItem {
    pub mode: Vec<u8>,
    pub name: Vec<u8>,
    pub id: crate::hash::Hash,
}

/// What a [`TreeItem`] holds.
pub struct TreeItemView {
    pub mode: Seq<u8>,
    pub name: Seq<u8>,
    pub id: Seq<u8>,
}

impl View for TreeItem {
    type V = TreeItemView;

    open spec fn view(&self) -> TreeItemView {
        TreeItemView { mode: self.mode@, name: self.name@, id: self.id@ }
    }
}

/// The views of a list of tree entries, in order.
pub open spec fn items_view(items: Seq<TreeItem>) -> Seq<TreeItemView> {
    Seq::new(items.len(), |i: int| items[i]@)
}

/// The entry that starts at place `at` of a tree's bytes, and the place
/// behind it.
///
/// An entry is the mode, a space, the name, a NUL, and the twenty bytes of
/// the id.
pub open spec fn spec_tree_entry(data: Seq<u8>, at: int) -> Option<(TreeItemView, int)> {
    let space = find_byte(data, 0x20, at);
    let nul = find_byte(data, 0, space + 1);
    if 0 <= at <= space && space < nul && nul + 20 < data.len() {
        Some(
            (
                TreeItemView {
                    mode: data.subrange(at, space),
                    name: data.subrange(space + 1, nul),
                    id: data.subrange(nul + 1, nul + 21),
                },
                nul + 21,
            ),
        )
    } else {
        None
    }
}

/// The entries of a tree from place `at` of its bytes on; `None` when the
/// bytes do not end with a whole entry.
pub open spec fn spec_tree_items(data: Seq<u8>, at: int) -> Option<Seq<TreeItemView>>
    decreases data.len() - at,
{
    if at >= data.len() {
        Some(Seq::empty())
    } else {
        match spec_tree_entry(data, at) {
            None => None,
            Some((item, next)) => match spec_tree_items(data, next) {
                None => None,
                Some(rest) => Some(seq![item] + rest),
            },
        }
    }
}

/// The ids that the entries of a tree refer to, in order.
pub open spec fn item_ids(items: Seq<TreeItemView>) -> Seq<Seq<u8>> {
    Seq::new(items.len(), |i: int| items[i].id)
}

/// A directory: a list of entries.
#[derive(Debug, Clone, PartialEq, Eq)]
pub struct Tree {
    pub id: crate::hash::Hash,
    pub tree_items: Vec<TreeItem>,
    pub raw: Vec<u8>,
}

/// `list` put in front of the entries still to be read.
pub open spec fn prepend_items(list: Seq<TreeItemView>, more: Option<Seq<TreeItemView>>) -> Option<
    Seq<TreeItemView>,
> {
    match more {
        Some(rest) => Some(list + rest),
        None => None,
    }
}

/// Reads the entry at place `at` of a tree's bytes.
pub fn parse_tree_entry(data: &[u8], at: usize) -> (r: Option<(TreeItem, usize)>)
    ensures
        match spec_tree_entry(data@, at as int) {
            Some((item, next)) => r matches Some((i, n)) && i@ == item && n == next && at < n
                <= data.len(),
            None => r is None,
        },
{
    if at >= data.len() {
        assert(find_byte(data@, 0x20, at as int) == data@.len());
        assert(find_byte(data@, 0, (data@.len() + 1) as int) == data@.len());
        return None;
    }
    let space: usize = find_byte_from(data, 0x20u8, at);
    if space >= data.len() {
        assert(find_byte(data@, 0, space + 1) == data@.len());
        return None;
    }
    let nul: usize = find_byte_from(data, 0u8, space + 1);
    if nul >= data.len() || data.len() - nul <= 20 {
        return None;
    }
    let mode = copy_range(data, at, space);
    let name = copy_range(data, space + 1, nul);
    let mut id: [u8; 20] = [0u8; 20];
    let mut i: usize = 0;
    while i < 20
        invariant
            i <= 20,
            nul + 20 < data.len(),
            forall|j: int| 0 <= j < i ==> id@[j] == data@[nul + 1 + j],
        decreases 20 - i,
    {
        id[i] = data[nul + 1 + i];
        i = i + 1;
    }
    let item = TreeItem { mode, name, id: crate::hash::Hash { bytes: id } };
    assert(item.id@ =~= data@.subrange(nul + 1, nul + 21));
    Some((item, nul + 21))
}

/// Whether `data` is a list of whole tree entries.
pub fn is_tree_data(data: &[u8]) -> (r: bool)
    ensures
        r == spec_tree_items(data@, 0) is Some,
{
    let mut at: usize = 0;
    while at < data.len()
        invariant
            at <= data.len(),
            spec_tree_items(data@, 0) is Some <==> spec_tree_items(data@, at as int) is Some,
        decreases data.len() - at,
    {
        match parse_tree_entry(data, at) {
            None => {
                return false;
            },
            Some((_, next)) => {
                at = next;
            },
        }
    }
    true
}

impl Tree {
    /// The entries, as the bytes spell them.
    pub open spec fn wf(&self) -> bool {
        &&& spec_tree_items(self.raw@, 0) == Some(items_view(self.tree_items@))
        &&& self.id@ == object_id(ObjectType::Tree, self.raw@)
    }

    /// Reads a tree from its bytes; `None` when they are not a list of whole
    /// entries.
    pub fn new_from_data(data: Vec<u8>) -> (r: Option<Tree>)
        ensures
            r is Some <==> spec_tree_items(data@, 0) is Some,
            r matches Some(tree) ==> tree.raw@ == data@ && tree.wf(),
    {
        let mut items: Vec<TreeItem> = Vec::new();
        let mut at: usize = 0;
        assert(items_view(items@) + Seq::<TreeItemView>::empty() =~= Seq::<TreeItemView>::empty());
        while at < data.len()
            invariant
                at <= data.len(),
                spec_tree_items(data@, 0) == prepend_items(
                    items_view(items@),
                    spec_tree_items(data@, at as int),
                ),
            decreases data.len() - at,
        {
            let ghost listed = items_view(items@);
            match parse_tree_entry(data.as_slice(), at) {
                None => {
                    return None;
                },
                Some((item, next)) => {
                    proof {
                        let more = spec_tree_items(data@, next as int);
                        assert(items_view(items@.push(item)) =~= listed.push(item@));
                        if more is Some {
                            assert(listed + (seq![item@] + more->0) =~= listed.push(item@)
                                + more->0);
                        }
                    }
                    items.push(item);
                    at = next;
                },
            }
        }
        assert(items_view(items@) + Seq::<TreeItemView>::empty() =~= items_view(items@));
        let id = compute_object_id(ObjectType::Tree, data.as_slice());
        Some(Tree { id, tree_items: items, raw: data })
    }

    /// The bytes of the tree.
    pub fn get_raw(&self) -> (raw: Vec<u8>)
        ensures
            raw@ == self.raw@,
    {
        self.raw.clone()
    }
}

/// Bytes taken by the line that names a commit's tree: `tree`, a space, forty
/// digits, and a newline.
pub const TREE_LINE_LEN: usize = 46;

/// Bytes taken by a line that names a parent: `parent`, a space, forty
/// digits, and a newline.
pub const PARENT_LINE_LEN: usize = 48;

/// The id on the line at place `at` of a commit's bytes, if the line is
/// `keyword`, forty hexadecimal digits, and a newline.
pub open spec fn spec_id_line(raw: Seq<u8>, at: int, keyword: Seq<u8>) -> Option<Seq<u8>> {
    if holds_at(raw, at, keyword) && at + keyword.len() + 40 < raw.len() && raw[at + keyword.len()
        + 40] == 0x0a {
        spec_id_from_hex(raw.subrange(at + keyword.len(), at + keyword.len() + 40))
    } else {
        None
    }
}

/// The id of a commit's tree: its bytes open with the line that names it.
pub open spec fn spec_commit_tree(raw: Seq<u8>) -> Option<Seq<u8>> {
    spec_id_line(raw, 0, encode_utf8("tree "@))
}

/// The ids on the run of parent lines that starts at place `at`.
pub open spec fn spec_commit_parents(raw: Seq<u8>, at: int) -> Seq<Seq<u8>>
    decreases raw.len() - at,
{
    if at < 0 || at + 48 > raw.len() {
        Seq::empty()
    } else {
        match spec_id_line(raw, at, encode_utf8("parent "@)) {
            None => Seq::empty(),
            Some(id) => seq![id] + spec_commit_parents(raw, at + 48),
        }
    }
}

/// The place behind the run of parent lines that starts at place `at`.
pub open spec fn spec_parents_end(raw: Seq<u8>, at: int) -> int
    decreases raw.len() - at,
{
    if at < 0 || at + 48 > raw.len() {
        at
    } else {
        match spec_id_line(raw, at, encode_utf8("parent "@)) {
            None => at,
            Some(_) => spec_parents_end(raw, at + 48),
        }
    }
}

/// What the line at place `at` says behind `keyword`, and the place of the
/// next line; `None` when the line does not start with `keyword`.
pub open spec fn spec_header_line(raw: Seq<u8>, at: int, keyword: Seq<u8>) -> Option<
    (Seq<u8>, int),
> {
    if holds_at(raw, at, keyword) {
        let end = find_byte(raw, 0x0a, at + keyword.len());
        Some(
            (
                raw.subrange(at + keyword.len(), end),
                if end < raw.len() {
                    end + 1
                } else {
                    end
                },
            ),
        )
    } else {
        None
    }
}

/// Where the message starts: behind the first empty line at or after the
/// line that starts at place `at`; at the end when there is none.
pub open spec fn spec_message_start(raw: Seq<u8>, at: int) -> int
    decreases raw.len() - at,
{
    if at < 0 || at >= raw.len() {
        raw.len() as int
    } else if raw[at] == 0x0a {
        at + 1
    } else {
        let end = find_byte(raw, 0x0a, at);
        if at < end < raw.len() {
            spec_message_start(raw, end + 1)
        } else {
            raw.len() as int
        }
    }
}

/// What a commit says in words: who wrote it, who committed it, and the
/// message.
pub struct CommitText {
    pub author: Seq<u8>,
    pub committer: Seq<u8>,
    pub message: Seq<u8>,
}

/// What the bytes of a commit say from place `at` on, behind the lines that
/// name tree and parents: the line of the author, the line of the
/// committer, and behind the first empty line the message. A line that is
/// missing reads as empty.
pub open spec fn spec_commit_text(raw: Seq<u8>, at: int) -> CommitText {
    let (author, behind_author) = match spec_header_line(raw, at, encode_utf8("author "@)) {
        Some(line) => line,
        None => (Seq::empty(), at),
    };
    let (committer, behind_committer) = match spec_header_line(
        raw,
        behind_author,
        encode_utf8("committer "@),
    ) {
        Some(line) => line,
        None => (Seq::empty(), behind_author),
    };
    let start = spec_message_start(raw, behind_committer);
    CommitText { author, committer, message: raw.subrange(start, raw.len() as int) }
}

/// The bytes of a commit with the line that names its tree replaced by one
/// that names `tree`; all that follows the line is kept.
pub open spec fn spec_with_tree(raw: Seq<u8>, tree: Seq<u8>) -> Seq<u8> {
    encode_utf8("tree "@) + hex_bytes(tree) + seq![0x0au8] + if raw.len() >= 46 {
        raw.subrange(46, raw.len() as int)
    } else {
        Seq::empty()
    }
}

/// The views of a list of ids, in order.
pub open spec fn ids_view(ids: Seq<crate::hash::Hash>) -> Seq<Seq<u8>> {
    Seq::new(ids.len(), |i: int| ids[i]@)
}

/// Reads the id on the line at place `at`, if the line is `keyword`, forty
/// hexadecimal digits, and a newline.
pub fn parse_id_line(raw: &[u8], at: usize, keyword: &str) -> (r: Option<crate::hash::Hash>)
    ensures
        match spec_id_line(raw@, at as int, encode_utf8(keyword@)) {
            Some(id) => r matches Some(h) && h@ == id,
            None => r is None,
        },
{
    let word = keyword.as_bytes();
    if !starts_with_at(raw, at, word) {
        return None;
    }
    let total: usize = raw.len();
    assert(at + word@.len() <= total);
    let start: usize = at + word.len();
    if raw.len() - start <= 40 || raw[start + 40] != 0x0au8 {
        return None;
    }
    let digits = copy_range(raw, start, start + 40);
    crate::hash::Hash::from_hex(digits.as_slice())
}

/// Reads what the line at place `at` says behind `keyword`.
pub fn parse_header_line(raw: &[u8], at: usize, keyword: &str) -> (r: Option<(Vec<u8>, usize)>)
    ensures
        match spec_header_line(raw@, at as int, encode_utf8(keyword@)) {
            Some((value, next)) => r matches Some((v, n)) && v@ == value && n == next && at <= n
                <= raw.len(),
            None => r is None,
        },
{
    let word = keyword.as_bytes();
    if !starts_with_at(raw, at, word) {
        return None;
    }
    let total: usize = raw.len();
    assert(at + word@.len() <= total);
    let start: usize = at + word.len();
    let end: usize = find_byte_from(raw, 0x0au8, start);
    let value = copy_range(raw, start, end);
    if end < raw.len() {
        Some((value, end + 1))
    } else {
        Some((value, end))
    }
}

/// Finds where the message starts, reading lines from place `at`.
pub fn find_message_start(raw: &[u8], at: usize) -> (start: usize)
    ensures
        start == spec_message_start(raw@, at as int),
        start <= raw.len(),
        at <= raw.len() ==> at <= start,
{
    if at >= raw.len() {
        return raw.len();
    }
    let mut line: usize = at;
    while line < raw.len() && raw[line] != 0x0au8
        invariant
            at <= line <= raw.len(),
            spec_message_start(raw@, at as int) == spec_message_start(raw@, line as int),
        decreases raw.len() - line,
    {
        let end: usize = find_byte_from(raw, 0x0au8, line);
        if end >= raw.len() {
            return raw.len();
        }
        line = end + 1;
    }
    if line < raw.len() {
        line + 1
    } else {
        line
    }
}

/// A commit: a tree, the commits it follows, who made it, and the message.
#[derive(Debug, Clone, PartialEq, Eq)]
pub struct Commit {
    pub id: crate::hash::Hash,
    pub tree_id: crate::hash::Hash,
    pub parent_ids: Vec<crate::hash::Hash>,
    pub author: Vec<u8>,
    pub committer: Vec<u8>,
    pub message: Vec<u8>,
    pub raw: Vec<u8>,
}

/// Five ASCII letters and a space encode as themselves.
proof fn lemma_keywords()
    ensures
        encode_utf8("tree "@).len() == 5,
        encode_utf8("parent "@).len() == 7,
{
    reveal_strlit("tree ");
    reveal_strlit("parent ");
    assert(vstd::utf8::is_ascii_chars("tree "@));
    assert(vstd::utf8::is_ascii_chars("parent "@));
    vstd::utf8::is_ascii_chars_encode_utf8("tree "@);
    vstd::utf8::is_ascii_chars_encode_utf8("parent "@);
}

impl Commit {
    /// The fields, as the bytes spell them.
    pub open spec fn wf(&self) -> bool {
        &&& spec_commit_tree(self.raw@) == Some(self.tree_id@)
        &&& spec_commit_parents(self.raw@, 46) == ids_view(self.parent_ids@)
        &&& spec_commit_text(self.raw@, spec_parents_end(self.raw@, 46)) == (CommitText {
            author: self.author@,
            committer: self.committer@,
            message: self.message@,
        })
        &&& self.id@ == object_id(ObjectType::Commit, self.raw@)
    }

    /// Reads a commit from its bytes; `None` when they do not open with the
    /// line that names the tree.
    pub fn new_from_data(data: Vec<u8>) -> (r: Option<Commit>)
        ensures
            r is Some <==> spec_commit_tree(data@) is Some,
            r matches Some(commit) ==> commit.raw@ == data@ && commit.wf(),
    {
        proof {
            lemma_keywords();
        }
        let tree_id = match parse_id_line(data.as_slice(), 0, "tree ") {
            None => {
                return None;
            },
            Some(id) => id,
        };
        let mut parent_ids: Vec<crate::hash::Hash> = Vec::new();
        let mut at: usize = TREE_LINE_LEN;
        let mut more = true;
        assert(ids_view(parent_ids@) + spec_commit_parents(data@, 46) =~= spec_commit_parents(
            data@,
            46,
        ));
        while more
            invariant
                TREE_LINE_LEN <= at <= data.len(),
                encode_utf8("parent "@).len() == 7,
                more ==> spec_commit_parents(data@, 46) == ids_view(parent_ids@)
                    + spec_commit_parents(data@, at as int),
                !more ==> spec_commit_parents(data@, 46) == ids_view(parent_ids@),
                more ==> spec_parents_end(data@, 46) == spec_parents_end(data@, at as int),
                !more ==> spec_parents_end(data@, 46) == at,
            decreases data.len() - at, if more { 1int } else { 0int },
        {
            let ghost listed = ids_view(parent_ids@);
            match parse_id_line(data.as_slice(), at, "parent ") {
                None => {
                    assert(listed + Seq::<Seq<u8>>::empty() =~= listed);
                    more = false;
                },
                Some(id) => {
                    proof {
                        let more = spec_commit_parents(data@, at + 48);
                        assert(ids_view(parent_ids@.push(id)) =~= listed.push(id@));
                        assert(listed + (seq![id@] + more) =~= listed.push(id@) + more);
                    }
                    parent_ids.push(id);
                    at = at + PARENT_LINE_LEN;
                },
            }
        }
        let (author, behind_author) = match parse_header_line(data.as_slice(), at, "author ") {
            Some(line) => line,
            None => (Vec::new(), at),
        };
        let (committer, behind_committer) = match parse_header_line(
            data.as_slice(),
            behind_author,
            "committer ",
        ) {
            Some(line) => line,
            None => (Vec::new(), behind_author),
        };
        let start: usize = find_message_start(data.as_slice(), behind_committer);
        let message = copy_range(data.as_slice(), start, data.len());
        let id = compute_object_id(ObjectType::Commit, data.as_slice());
        Some(Commit { id, tree_id, parent_ids, author, committer, message, raw: data })
    }

    /// The bytes of the commit.
    pub fn get_raw(&self) -> (raw: Vec<u8>)
        ensures
            raw@ == self.raw@,
    {
        self.raw.clone()
    }

    /// The bytes of this commit with `tree` in the place of its tree. The
    /// parents, the author, the committer and the message stay as they are.
    pub fn raw_with_tree(&self, tree: &crate::hash::Hash) -> (raw: Vec<u8>)
        ensures
            raw@ == spec_with_tree(self.raw@, tree@),
    {
        let mut raw: Vec<u8> = Vec::new();
        raw.extend_from_slice("tree ".as_bytes());
        let digits = tree.to_hex();
        raw.extend_from_slice(digits.as_slice());
        raw.push(0x0au8);
        if self.raw.len() >= TREE_LINE_LEN {
            let tail = copy_range(self.raw.as_slice(), TREE_LINE_LEN, self.raw.len());
            raw.extend_from_slice(tail.as_slice());
        }
        assert(raw@ =~= spec_with_tree(self.raw@, tree@));
        raw
    }
}

} // verus!
