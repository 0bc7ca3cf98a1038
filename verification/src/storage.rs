//! Where images and their masks are kept: a directory of files.
use vstd::prelude::*;
use vstd::string::*;

verus! {

/// What a file of the storage holds.
#[derive(Debug, Clone, Copy, PartialEq, Eq, Structural)]
pub enum Kind {
    Mask,
    Image,
}

/// An image of the storage.
#[derive(Debug, PartialEq, Eq)]
pub struct ImageListTaskItem {
    pub id: String,
    pub name: String,
    /// Whether there is a mask file for the image.
    pub has_masks: bool,
}

/// What a list item says.
pub struct ItemModel {
    pub id: Seq<char>,
    pub name: Seq<char>,
    pub has_masks: bool,
}

impl View for ImageListTaskItem {
    type V = ItemModel;

    open spec fn view(&self) -> ItemModel {
        ItemModel { id: self.id@, name: self.name@, has_masks: self.has_masks }
    }
}

/// A file: its name without the extension, its kind and its whole path.
pub struct FileModel {
    pub name: Seq<char>,
    pub kind: Kind,
    pub id: Seq<char>,
}

pub open spec fn file_model(file: (String, Kind, String)) -> FileModel {
    FileModel { name: file.0@, kind: file.1, id: file.2@ }
}

pub open spec fn file_models(files: Seq<(String, Kind, String)>) -> Seq<FileModel> {
    files.map_values(|f: (String, Kind, String)| file_model(f))
}

/// Whether one text comes before another: by the first character in which they differ, or as the
/// beginning of the other.
pub open spec fn text_before(a: Seq<char>, b: Seq<char>) -> bool
    decreases a.len(),
{
    if b.len() == 0 {
        false
    } else if a.len() == 0 {
        true
    } else if a[0] != b[0] {
        a[0] < b[0]
    } else {
        text_before(a.drop_first(), b.drop_first())
    }
}

/// Whether no two mask files have one name.
pub open spec fn masks_have_own_names(files: Seq<FileModel>) -> bool {
    forall|j: int, k: int|
        0 <= j < k < files.len() && files[j].kind == Kind::Mask && files[k].kind == Kind::Mask
            ==> files[j].name != files[k].name
}

/// Whether the file is an image, and among the images of its name the one whose path comes first.
pub open spec fn leads_its_name(files: Seq<FileModel>, file: FileModel) -> bool {
    &&& files.contains(file)
    &&& file.kind == Kind::Image
    &&& forall|k: int|
        0 <= k < files.len() && (#[trigger] files[k]).name == file.name && files[k].kind
            == Kind::Image ==> !text_before(files[k].id, file.id)
}

/// Whether there is a mask file of this name.
pub open spec fn has_mask(files: Seq<FileModel>, name: Seq<char>) -> bool {
    exists|k: int|
        0 <= k < files.len() && (#[trigger] files[k]).name == name && files[k].kind == Kind::Mask
}

/// Whether the list has one item for each name that an image has, ordered by name: the image of
/// that name whose path comes first, and whether there is a mask file of that name.
pub open spec fn lists_images(files: Seq<FileModel>, items: Seq<ItemModel>) -> bool {
    &&& forall|i: int|
        0 <= i < items.len() ==> leads_its_name(
            files,
            FileModel {
                name: (#[trigger] items[i]).name,
                kind: Kind::Image,
                id: items[i].id,
            },
        ) && items[i].has_masks == has_mask(files, items[i].name)
    &&& forall|k: int|
        0 <= k < files.len() && (#[trigger] files[k]).kind == Kind::Image ==> exists|i: int|
            0 <= i < items.len() && (#[trigger] items[i]).name == files[k].name
    &&& forall|i: int, j: int|
        0 <= i < j < items.len() ==> text_before(items[i].name, items[j].name)
}

/// A file the way it is sorted: masks before images.
pub open spec fn sort_key(file: (String, u8, String)) -> (Seq<char>, u8, Seq<char>) {
    (file.0@, file.1, file.2@)
}

pub open spec fn sort_keys(files: Seq<(String, u8, String)>) -> Seq<(Seq<char>, u8, Seq<char>)> {
    files.map_values(|f: (String, u8, String)| sort_key(f))
}

/// Whether `b` does not come before `a`: by name, then by kind, then by path.
pub open spec fn key_ordered(
    a: (Seq<char>, u8, Seq<char>),
    b: (Seq<char>, u8, Seq<char>),
) -> bool {
    ||| text_before(a.0, b.0)
    ||| a.0 == b.0 && a.1 < b.1
    ||| a.0 == b.0 && a.1 == b.1 && !text_before(b.2, a.2)
}

/// `itertools::Itertools::sorted_unstable`: the same items in ascending order, which for tuples and
/// strings is the lexicographic one.
#[verifier::external_body]
fn sorted_unstable(files: Vec<(String, u8, String)>) -> (sorted: Vec<(String, u8, String)>)
    ensures
        sort_keys(sorted@).to_multiset() == sort_keys(files@).to_multiset(),
        forall|i: int, j: int|
            0 <= i < j < sorted@.len() ==> #[trigger] key_ordered(
                sort_key(sorted@[i]),
                sort_key(sorted@[j]),
            ),
{
    itertools::Itertools::sorted_unstable(files.into_iter()).collect()
}

proof fn lemma_text_irreflexive(a: Seq<char>)
    ensures
        !text_before(a, a),
    decreases a.len(),
{
    if a.len() > 0 {
        lemma_text_irreflexive(a.drop_first());
    }
}

proof fn lemma_text_transitive(a: Seq<char>, b: Seq<char>, c: Seq<char>)
    requires
        text_before(a, b),
        text_before(b, c),
    ensures
        text_before(a, c),
    decreases a.len(),
{
    if a.len() > 0 {
        if a[0] == b[0] && b[0] == c[0] {
            lemma_text_transitive(a.drop_first(), b.drop_first(), c.drop_first());
        }
    }
}

proof fn lemma_text_total(a: Seq<char>, b: Seq<char>)
    ensures
        a == b || text_before(a, b) || text_before(b, a),
    decreases a.len(),
{
    if a.len() == 0 || b.len() == 0 {
        if a.len() == 0 && b.len() == 0 {
            assert(a =~= b);
        }
    } else if a[0] == b[0] {
        lemma_text_total(a.drop_first(), b.drop_first());
        if a.drop_first() == b.drop_first() {
            assert(a =~= seq![a[0]] + a.drop_first());
            assert(b =~= seq![b[0]] + b.drop_first());
        }
    } else {
        assert(a[0] < b[0] || b[0] < a[0]);
    }
}

/// The order of texts is a strict total order.
pub proof fn text_order_is_total(a: Seq<char>, b: Seq<char>, c: Seq<char>)
    ensures
        !text_before(a, a),
        text_before(a, b) && text_before(b, c) ==> text_before(a, c),
        a == b || text_before(a, b) || text_before(b, a),
{
    lemma_text_irreflexive(a);
    if text_before(a, b) && text_before(b, c) {
        lemma_text_transitive(a, b, c);
    }
    lemma_text_total(a, b);
}

/// What occurs twice in a collection occurs at two places.
proof fn lemma_twice<T>(s: Seq<T>, x: T)
    ensures
        s.to_multiset().count(x) >= 2 ==> exists|j: int, k: int|
            0 <= j < k < s.len() && s[j] == x && s[k] == x,
        s.to_multiset().count(x) >= 1 ==> exists|k: int| 0 <= k < s.len() && s[k] == x,
    decreases s.len(),
{
    broadcast use vstd::seq_lib::group_to_multiset_ensures;

    if s.len() > 0 {
        let rest = s.drop_last();
        lemma_twice(rest, x);
        assert(s =~= rest.push(s.last()));
        assert(s.to_multiset() == rest.to_multiset().insert(s.last()));
        if s.to_multiset().count(x) >= 2 {
            if s.last() == x {
                let k = choose|k: int| 0 <= k < rest.len() && rest[k] == x;
                assert(s[k] == x && s[s.len() - 1] == x);
            } else {
                let (j, k) = choose|j: int, k: int|
                    0 <= j < k < rest.len() && rest[j] == x && rest[k] == x;
                assert(s[j] == x && s[k] == x);
            }
        }
        if s.to_multiset().count(x) >= 1 {
            if s.last() == x {
                assert(s[s.len() - 1] == x);
            } else {
                let k = choose|k: int| 0 <= k < rest.len() && rest[k] == x;
                assert(s[k] == x);
            }
        }
    } else {
        assert(s.to_multiset().count(x) == 0);
    }
}

/// What stands at two places occurs twice.
proof fn lemma_two_places<T>(s: Seq<T>, j: int, k: int)
    requires
        0 <= j < k < s.len(),
        s[j] == s[k],
    ensures
        s.to_multiset().count(s[j]) >= 2,
    decreases s.len(),
{
    broadcast use vstd::seq_lib::group_to_multiset_ensures;

    let rest = s.drop_last();
    assert(s =~= rest.push(s.last()));
    assert(s.to_multiset() == rest.to_multiset().insert(s.last()));
    if k < s.len() - 1 {
        lemma_two_places(rest, j, k);
    } else {
        assert(rest[j] == s[j]);
        assert(rest.contains(s[j]));
        assert(rest.to_multiset().count(s[j]) > 0);
    }
}

/// Masks sort before images.
pub open spec fn rank(kind: Kind) -> u8 {
    match kind {
        Kind::Mask => 0,
        Kind::Image => 1,
    }
}

pub open spec fn file_key(file: FileModel) -> (Seq<char>, u8, Seq<char>) {
    (file.name, rank(file.kind), file.id)
}

pub open spec fn file_keys(files: Seq<FileModel>) -> Seq<(Seq<char>, u8, Seq<char>)> {
    files.map_values(|f: FileModel| file_key(f))
}

/// The files the way they are sorted.
fn ranked(files: Vec<(String, Kind, String)>) -> (out: Vec<(String, u8, String)>)
    ensures
        sort_keys(out@) == file_keys(file_models(files@)),
{
    let mut out: Vec<(String, u8, String)> = Vec::new();
    let mut i: usize = 0;
    while i < files.len()
        invariant
            i <= files@.len(),
            sort_keys(out@) == file_keys(file_models(files@)).take(i as int),
        decreases files@.len() - i,
    {
        let kind_rank: u8 = match files[i].1 {
            Kind::Mask => 0,
            Kind::Image => 1,
        };
        let ghost was = out@;
        let file = (files[i].0.clone(), kind_rank, files[i].2.clone());
        out.push(file);
        proof {
            let keys = file_keys(file_models(files@));
            assert(keys.take(i + 1) =~= keys.take(i as int).push(keys[i as int]));
            assert(sort_keys(out@) =~= sort_keys(was).push(sort_key(file)));
        }
        i += 1;
    }
    assert(file_keys(file_models(files@)).take(i as int) =~= file_keys(file_models(files@)));
    out
}

/// Whether both are masks of one name.
spec fn same_mask(a: (Seq<char>, u8, Seq<char>), b: (Seq<char>, u8, Seq<char>)) -> bool {
    a.1 == 0 && b.1 == 0 && a.0 == b.0
}

/// Whether the sorted files are the files, in order.
spec fn is_sorted_form(
    files: Seq<FileModel>,
    sorted: Seq<(Seq<char>, u8, Seq<char>)>,
) -> bool {
    &&& forall|key: (Seq<char>, u8, Seq<char>)|
        #![trigger sorted.contains(key)]
        #![trigger file_keys(files).contains(key)]
        sorted.contains(key) == file_keys(files).contains(key)
    &&& forall|i: int, j: int|
        0 <= i < j < sorted.len() ==> #[trigger] key_ordered(sorted[i], sorted[j])
    &&& forall|i: int, j: int|
        0 <= i < j < sorted.len() ==> !#[trigger] same_mask(sorted[i], sorted[j])
}

proof fn lemma_sorted_form(files: Seq<FileModel>, sorted: Seq<(Seq<char>, u8, Seq<char>)>)
    requires
        sorted.to_multiset() == file_keys(files).to_multiset(),
        masks_have_own_names(files),
        forall|i: int, j: int|
            0 <= i < j < sorted.len() ==> #[trigger] key_ordered(sorted[i], sorted[j]),
    ensures
        is_sorted_form(files, sorted),
{
    broadcast use vstd::seq_lib::group_to_multiset_ensures;

    let keys = file_keys(files);
    assert forall|key: (Seq<char>, u8, Seq<char>)|
        #![trigger sorted.contains(key)]
        #![trigger file_keys(files).contains(key)]
        sorted.contains(key) == keys.contains(key) by {
        assert(keys.contains(key) == (keys.to_multiset().count(key) > 0));
        assert(sorted.contains(key) == (sorted.to_multiset().count(key) > 0));
    }
    assert forall|i: int, j: int| 0 <= i < j < sorted.len() implies !#[trigger] same_mask(
        sorted[i],
        sorted[j],
    ) by {
        if same_mask(sorted[i], sorted[j]) {
            if sorted[i] == sorted[j] {
                lemma_two_places(sorted, i, j);
                lemma_twice(keys, sorted[i]);
                let (a, b) = choose|a: int, b: int|
                    0 <= a < b < keys.len() && keys[a] == sorted[i] && keys[b] == sorted[i];
                assert(keys[a] == file_key(files[a]) && keys[b] == file_key(files[b]));
            } else {
                assert(sorted.contains(sorted[i]) && sorted.contains(sorted[j]));
                let a = lemma_file_of(files, sorted[i]);
                let b = lemma_file_of(files, sorted[j]);
                assert(a != b);
                assert(files[a].name == files[b].name);
                assert(files[a].kind == Kind::Mask && files[b].kind == Kind::Mask);
            }
        }
    }
}

/// The place of a file with this key.
proof fn lemma_file_of(files: Seq<FileModel>, key: (Seq<char>, u8, Seq<char>)) -> (k: int)
    requires
        file_keys(files).contains(key),
    ensures
        0 <= k < files.len(),
        file_key(files[k]) == key,
{
    let k = choose|k: int| 0 <= k < file_keys(files).len() && file_keys(files)[k] == key;
    assert(file_keys(files)[k] == file_key(files[k]));
    k
}

/// The place of a file among the sorted files.
proof fn lemma_place_of(
    files: Seq<FileModel>,
    sorted: Seq<(Seq<char>, u8, Seq<char>)>,
    k: int,
) -> (m: int)
    requires
        is_sorted_form(files, sorted),
        0 <= k < files.len(),
    ensures
        0 <= m < sorted.len(),
        sorted[m] == file_key(files[k]),
{
    let key = file_key(files[k]);
    assert(file_keys(files)[k] == key);
    assert(file_keys(files).contains(key));
    assert(sorted.contains(key));
    choose|m: int| 0 <= m < sorted.len() && sorted[m] == key
}

/// Whether all sorted files before `n` are accounted for in the list.
spec fn listed_upto(
    files: Seq<FileModel>,
    sorted: Seq<(Seq<char>, u8, Seq<char>)>,
    items: Seq<ItemModel>,
    n: int,
) -> bool {
    &&& forall|i: int|
        0 <= i < items.len() ==> leads_its_name(
            files,
            FileModel { name: (#[trigger] items[i]).name, kind: Kind::Image, id: items[i].id },
        ) && items[i].has_masks == has_mask(files, items[i].name)
    &&& forall|m: int|
        0 <= m < n && (#[trigger] sorted[m]).1 == 1 ==> exists|i: int|
            0 <= i < items.len() && (#[trigger] items[i]).name == sorted[m].0
    &&& forall|i: int, j: int|
        0 <= i < j < items.len() ==> text_before(items[i].name, items[j].name)
    &&& forall|i: int, m: int|
        0 <= i < items.len() && n <= m < sorted.len() ==> text_before(
            (#[trigger] items[i]).name,
            (#[trigger] sorted[m]).0,
        )
}

/// Whether the sorted files `from..to` are all that have the name of the first of them.
spec fn is_group(sorted: Seq<(Seq<char>, u8, Seq<char>)>, from: int, to: int) -> bool {
    &&& 0 <= from < to <= sorted.len()
    &&& forall|m: int| from <= m < to ==> (#[trigger] sorted[m]).0 == sorted[from].0
    &&& forall|m: int| 0 <= m < from ==> (#[trigger] sorted[m]).0 != sorted[from].0
    &&& to < sorted.len() ==> sorted[to].0 != sorted[from].0
}

/// Behind a group come only names behind its name.
proof fn lemma_behind_group(
    files: Seq<FileModel>,
    sorted: Seq<(Seq<char>, u8, Seq<char>)>,
    from: int,
    to: int,
)
    requires
        is_sorted_form(files, sorted),
        is_group(sorted, from, to),
    ensures
        forall|m: int|
            to <= m < sorted.len() ==> text_before(sorted[from].0, (#[trigger] sorted[m]).0),
        forall|m: int| 0 <= m < sorted.len() && (m < from || to <= m) ==> (#[trigger] sorted[m]).0
            != sorted[from].0,
{
    let name = sorted[from].0;
    lemma_text_irreflexive(name);
    assert forall|m: int| to <= m < sorted.len() implies text_before(
        name,
        (#[trigger] sorted[m]).0,
    ) by {
        assert(key_ordered(sorted[from], sorted[to]));
        assert(text_before(name, sorted[to].0));
        if m > to {
            assert(key_ordered(sorted[to], sorted[m]));
            if sorted[to].0 != sorted[m].0 {
                lemma_text_transitive(name, sorted[to].0, sorted[m].0);
            }
        }
    }
}

/// The item of a group: its first image, with masks where the group starts with a mask.
proof fn lemma_group_item(
    files: Seq<FileModel>,
    sorted: Seq<(Seq<char>, u8, Seq<char>)>,
    items: Seq<ItemModel>,
    from: int,
    to: int,
    at: int,
)
    requires
        is_sorted_form(files, sorted),
        is_group(sorted, from, to),
        listed_upto(files, sorted, items, from),
        at == from || (at == from + 1 && sorted[from].1 == 0),
        at < to,
        sorted[at].1 == 1,
    ensures
        listed_upto(
            files,
            sorted,
            items.push(
                ItemModel { id: sorted[at].2, name: sorted[from].0, has_masks: at != from },
            ),
            to,
        ),
{
    let name = sorted[from].0;
    let item = ItemModel { id: sorted[at].2, name, has_masks: at != from };
    let next = items.push(item);
    let lead = FileModel { name, kind: Kind::Image, id: item.id };
    lemma_behind_group(files, sorted, from, to);
    assert(leads_its_name(files, lead)) by {
        assert(sorted[at].0 == name);
        assert(sorted.contains(sorted[at]));
        let k = lemma_file_of(files, sorted[at]);
        assert(files[k] == lead);
        assert forall|k: int|
            0 <= k < files.len() && (#[trigger] files[k]).name == name && files[k].kind
                == Kind::Image implies !text_before(files[k].id, item.id) by {
            let m = lemma_place_of(files, sorted, k);
            assert(sorted[m].0 == name);
            assert(from <= m < to);
            if m > at {
                assert(key_ordered(sorted[at], sorted[m]));
                lemma_text_irreflexive(name);
            } else if m == at {
                lemma_text_irreflexive(item.id);
            }
        }
    }
    assert(item.has_masks == has_mask(files, name)) by {
        if at != from {
            assert(sorted.contains(sorted[from]));
            let k = lemma_file_of(files, sorted[from]);
            assert(files[k].name == name && files[k].kind == Kind::Mask);
        } else if has_mask(files, name) {
            let k = choose|k: int|
                0 <= k < files.len() && (#[trigger] files[k]).name == name && files[k].kind
                    == Kind::Mask;
            let m = lemma_place_of(files, sorted, k);
            assert(sorted[m].0 == name);
            assert(from <= m < to);
            assert(m != from);
            assert(key_ordered(sorted[from], sorted[m]));
            lemma_text_irreflexive(name);
        }
    }
    assert forall|i: int| 0 <= i < next.len() implies leads_its_name(
        files,
        FileModel { name: (#[trigger] next[i]).name, kind: Kind::Image, id: next[i].id },
    ) && next[i].has_masks == has_mask(files, next[i].name) by {
        if i < items.len() {
            assert(next[i] == items[i]);
        }
    }
    assert forall|m: int| 0 <= m < to && (#[trigger] sorted[m]).1 == 1 implies exists|i: int|
        0 <= i < next.len() && (#[trigger] next[i]).name == sorted[m].0 by {
        if m < from {
            let i = choose|i: int| 0 <= i < items.len() && (#[trigger] items[i]).name == sorted[m].0;
            assert(next[i].name == sorted[m].0);
        } else {
            assert(next[items.len() as int].name == sorted[m].0);
        }
    }
    assert forall|i: int, j: int| 0 <= i < j < next.len() implies text_before(
        next[i].name,
        next[j].name,
    ) by {
        if j == items.len() {
            assert(text_before(items[i].name, sorted[from].0));
        }
    }
    assert forall|i: int, m: int|
        0 <= i < next.len() && to <= m < sorted.len() implies text_before(
        (#[trigger] next[i]).name,
        (#[trigger] sorted[m]).0,
    ) by {
        if i < items.len() {
            assert(text_before(items[i].name, sorted[m].0));
        }
    }
}

/// A group of a mask alone has no item.
proof fn lemma_group_without_image(
    files: Seq<FileModel>,
    sorted: Seq<(Seq<char>, u8, Seq<char>)>,
    items: Seq<ItemModel>,
    from: int,
)
    requires
        is_sorted_form(files, sorted),
        is_group(sorted, from, from + 1),
        listed_upto(files, sorted, items, from),
        sorted[from].1 == 0,
    ensures
        listed_upto(files, sorted, items, from + 1),
{
}

/// What the list items say, in order.
pub open spec fn item_models(items: Seq<ImageListTaskItem>) -> Seq<ItemModel> {
    items.map_values(|i: ImageListTaskItem| i@)
}

/// Whether no two mask files have one name.
pub fn mask_names_differ(files: &Vec<(String, Kind, String)>) -> (differ: bool)
    ensures
        differ == masks_have_own_names(file_models(files@)),
{
    let ghost models = file_models(files@);
    let mut j: usize = 0;
    while j < files.len()
        invariant
            j <= files@.len(),
            models == file_models(files@),
            forall|a: int, b: int|
                0 <= a < j && a < b < models.len() && models[a].kind == Kind::Mask
                    && models[b].kind == Kind::Mask ==> models[a].name != models[b].name,
        decreases files@.len() - j,
    {
        let mut k: usize = j + 1;
        while k < files.len()
            invariant
                j < k <= files@.len(),
                models == file_models(files@),
                forall|b: int|
                    j < b < k && models[j as int].kind == Kind::Mask && (#[trigger] models[b]).kind
                        == Kind::Mask ==> models[j as int].name != models[b].name,
            decreases files@.len() - k,
        {
            assert(models[j as int] == file_model(files@[j as int]));
            assert(models[k as int] == file_model(files@[k as int]));
            if files[j].1 == Kind::Mask && files[k].1 == Kind::Mask && files[j].0 == files[k].0 {
                return false;
            }
            k += 1;
        }
        j += 1;
    }
    true
}

/// Why there is no path for the masks of an image.
#[derive(Debug, Clone, Copy, PartialEq, Eq, Structural)]
pub enum MaskPathError {
    NoFilename,
    RootDirectory,
}

/// A directory of images and masks.
pub struct FileStorage {
    base: String,
}

impl FileStorage {
    /// The path of the directory.
    pub closed spec fn path(&self) -> Seq<char> {
        self.base@
    }

    pub fn new(base: String) -> (storage: FileStorage)
        ensures
            storage.path() == base@,
    {
        FileStorage { base }
    }

    /// The images among the files, one for each name.
    pub fn list_images_blocking(files: Vec<(String, Kind, String)>) -> (items: Vec<
        ImageListTaskItem,
    >)
        requires
            masks_have_own_names(file_models(files@)),
        ensures
            lists_images(file_models(files@), item_models(items@)),
    {
        let ghost models = file_models(files@);
        let sorted = sorted_unstable(ranked(files));
        let ghost keys = sort_keys(sorted@);
        proof {
            assert forall|i: int, j: int| 0 <= i < j < keys.len() implies #[trigger] key_ordered(
                keys[i],
                keys[j],
            ) by {
                assert(key_ordered(sort_key(sorted@[i]), sort_key(sorted@[j])));
            }
            lemma_sorted_form(models, keys);
        }
        let mut items: Vec<ImageListTaskItem> = Vec::new();
        let mut from: usize = 0;
        assert(item_models(items@) =~= Seq::empty());
        while from < sorted.len()
            invariant
                from <= sorted@.len(),
                keys == sort_keys(sorted@),
                is_sorted_form(models, keys),
                listed_upto(models, keys, item_models(items@), from as int),
                from < sorted@.len() ==> forall|m: int|
                    0 <= m < from ==> (#[trigger] keys[m]).0 != keys[from as int].0,
            decreases sorted@.len() - from,
        {
            let mut to: usize = from + 1;
            while to < sorted.len() && sorted[to].0 == sorted[from].0
                invariant
                    from < to <= sorted@.len(),
                    keys == sort_keys(sorted@),
                    forall|m: int| from <= m < to ==> (#[trigger] keys[m]).0 == keys[from as int].0,
                decreases sorted@.len() - to,
            {
                assert(keys[to as int].0 == keys[from as int].0);
                to += 1;
            }
            assert(is_group(keys, from as int, to as int));
            let ghost had = items@;
            assert(keys[from as int] == sort_key(sorted@[from as int]));
            if sorted[from].1 != 0 {
                proof {
                    lemma_rank(models, keys, from as int);
                    lemma_group_item(
                        models,
                        keys,
                        item_models(had),
                        from as int,
                        to as int,
                        from as int,
                    );
                }
                let item = ImageListTaskItem {
                    id: sorted[from].2.clone(),
                    name: sorted[from].0.clone(),
                    has_masks: false,
                };
                items.push(item);
                assert(item_models(items@) =~= item_models(had).push(item@));
            } else if to > from + 1 {
                proof {
                    assert(keys[from + 1] == sort_key(sorted@[from + 1]));
                    assert(keys[from as int].0 == keys[from + 1].0);
                    assert(!same_mask(keys[from as int], keys[from + 1]));
                    lemma_rank(models, keys, from + 1);
                    lemma_group_item(
                        models,
                        keys,
                        item_models(had),
                        from as int,
                        to as int,
                        from + 1,
                    );
                }
                let item = ImageListTaskItem {
                    id: sorted[from + 1].2.clone(),
                    name: sorted[from + 1].0.clone(),
                    has_masks: true,
                };
                items.push(item);
                assert(item_models(items@) =~= item_models(had).push(item@));
            } else {
                proof {
                    lemma_group_without_image(models, keys, item_models(had), from as int);
                }
            }
            proof {
                lemma_behind_group(models, keys, from as int, to as int);
                if to < keys.len() {
                    assert forall|m: int| 0 <= m < to implies (#[trigger] keys[m]).0
                        != keys[to as int].0 by {
                        lemma_text_irreflexive(keys[to as int].0);
                        if m < from {
                            if keys[m].0 == keys[to as int].0 {
                                assert(key_ordered(keys[m], keys[from as int]));
                                lemma_text_transitive(
                                    keys[m].0,
                                    keys[from as int].0,
                                    keys[to as int].0,
                                );
                            }
                        }
                    }
                }
            }
            from = to;
        }
        proof {
            let list = item_models(items@);
            assert forall|k: int|
                0 <= k < models.len() && (#[trigger] models[k]).kind == Kind::Image implies exists|
                i: int,
            |
                0 <= i < list.len() && (#[trigger] list[i]).name == models[k].name by {
                let m = lemma_place_of(models, keys, k);
                assert(keys[m].1 == 1);
            }
        }
        items
    }

    /// The directory.
    pub fn get_image_path(&self) -> (path: String)
        ensures
            path@ == self.path(),
    {
        self.base.clone()
    }

    /// The directory and the name of the mask file of an image, from the image's file name without
    /// extension and its directory.
    pub fn get_mask_path(file_stem: Option<String>, parent: Option<String>) -> (path: Result<
        (String, String),
        MaskPathError,
    >)
        ensures
            match path {
                Ok((directory, name)) => file_stem is Some && parent is Some && directory
                    == parent->0 && name@ == file_stem->0@ + ".masks"@,
                Err(MaskPathError::NoFilename) => file_stem is None,
                Err(MaskPathError::RootDirectory) => file_stem is Some && parent is None,
            },
    {
        match file_stem {
            None => Err(MaskPathError::NoFilename),
            Some(stem) => match parent {
                None => Err(MaskPathError::RootDirectory),
                Some(directory) => Ok((directory, stem.concat(".masks"))),
            },
        }
    }
}

/// A sorted file is a mask or an image.
proof fn lemma_rank(files: Seq<FileModel>, sorted: Seq<(Seq<char>, u8, Seq<char>)>, m: int)
    requires
        is_sorted_form(files, sorted),
        0 <= m < sorted.len(),
    ensures
        sorted[m].1 == 0 || sorted[m].1 == 1,
{
    assert(sorted.contains(sorted[m]));
    let k = lemma_file_of(files, sorted[m]);
}

/// A text comes before another where, behind a common beginning, it ends and the other goes on, or its
/// next character is the smaller one.
pub proof fn texts_differ_behind_a_common_start(a: Seq<char>, b: Seq<char>)
    ensures
        text_before(a, b) <==> exists|n: int|
            0 <= n <= a.len() && n < b.len() && #[trigger] a.take(n) == b.take(n) && (n == a.len()
                || a[n] < b[n]),
    decreases a.len(),
{
    if text_before(a, b) {
        if a.len() == 0 || a[0] != b[0] {
            assert(a.take(0) =~= b.take(0));
        } else {
            let (x, y) = (a.drop_first(), b.drop_first());
            texts_differ_behind_a_common_start(x, y);
            let n = choose|n: int|
                0 <= n <= x.len() && n < y.len() && #[trigger] x.take(n) == y.take(n) && (n
                    == x.len() || x[n] < y[n]);
            assert(a.take(n + 1) =~= seq![a[0]] + x.take(n));
            assert(b.take(n + 1) =~= seq![b[0]] + y.take(n));
            assert(a.take(n + 1) == b.take(n + 1));
        }
    }
    if exists|n: int|
        0 <= n <= a.len() && n < b.len() && #[trigger] a.take(n) == b.take(n) && (n == a.len()
            || a[n] < b[n]) {
        let n = choose|n: int|
            0 <= n <= a.len() && n < b.len() && #[trigger] a.take(n) == b.take(n) && (n == a.len()
                || a[n] < b[n]);
        if n > 0 {
            assert(a.take(n)[0] == b.take(n)[0]);
            let (x, y) = (a.drop_first(), b.drop_first());
            assert(x.take(n - 1) =~= a.take(n).drop_first());
            assert(y.take(n - 1) =~= b.take(n).drop_first());
            assert(x.take(n - 1) == y.take(n - 1));
            texts_differ_behind_a_common_start(x, y);
        }
    }
}

/// What a list of images says. Each item is an image among the files, of all images of its name the
/// one with the first path, and has masks where a mask file has the name. Each image has an item of
/// its name, no name has two, and the names are in order.
pub proof fn lists_have_one_image_of_each_name(
    files: Seq<FileModel>,
    items: Seq<ItemModel>,
    i: int,
    j: int,
    k: int,
)
    requires
        lists_images(files, items),
        0 <= k < files.len(),
    ensures
        0 <= i < items.len() ==> {
            &&& exists|m: int|
                0 <= m < files.len() && (#[trigger] files[m]).name == items[i].name && files[m].id
                    == items[i].id && files[m].kind == Kind::Image
            &&& files[k].name == items[i].name && files[k].kind == Kind::Image ==> files[k].id
                == items[i].id || text_before(items[i].id, files[k].id)
            &&& items[i].has_masks <==> exists|m: int|
                0 <= m < files.len() && (#[trigger] files[m]).name == items[i].name && files[m].kind
                    == Kind::Mask
        },
        files[k].kind == Kind::Image ==> exists|m: int|
            0 <= m < items.len() && (#[trigger] items[m]).name == files[k].name,
        0 <= i < j < items.len() ==> text_before(items[i].name, items[j].name),
        0 <= i < j < items.len() ==> items[i].name != items[j].name,
{
    if 0 <= i < items.len() {
        let item = items[i];
        let lead = FileModel { name: item.name, kind: Kind::Image, id: item.id };
        assert(leads_its_name(files, lead));
        let m = files.index_of(lead);
        assert(files[m] == lead);
        if files[k].name == item.name && files[k].kind == Kind::Image {
            lemma_text_total(files[k].id, item.id);
        }
        if i < j < items.len() {
            lemma_text_irreflexive(item.name);
        }
    }
}

/// Mask files have names of their own where no two of them share one; what images are called does not
/// matter.
pub proof fn own_names_are_not_shared(files: Seq<FileModel>, j: int, k: int)
    requires
        masks_have_own_names(files),
        0 <= j < files.len(),
        0 <= k < files.len(),
        files[j].kind == Kind::Mask,
        files[k].kind == Kind::Mask,
        files[j].name == files[k].name,
    ensures
        j == k,
{
    if j < k {
        assert(files[j].name != files[k].name);
    } else if k < j {
        assert(files[k].name != files[j].name);
    }
}

/// Files and list items are taken for what they hold.
pub proof fn files_are_what_they_hold(file: (String, Kind, String), item: ImageListTaskItem)
    ensures
        file_model(file).name == file.0@,
        file_model(file).kind == file.1,
        file_model(file).id == file.2@,
        item@.id == item.id@,
        item@.name == item.name@,
        item@.has_masks == item.has_masks,
{
}

} // verus!
