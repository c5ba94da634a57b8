use crate::node::{join_path, joined, DuruError, Node};
use vstd::prelude::*;

verus! {

/// A flattened file record as a value: name, path of the directory holding
/// the file, size in bytes.
pub type Record = (Seq<char>, Seq<char>, u64);

/// One discovered file.
#[derive(Debug, Clone)]
pub struct DuruFile {
    name: String,
    path: String,
    size: u64,
}

impl View for DuruFile {
    type V = Record;

    closed spec fn view(&self) -> Record {
        (self.name@, self.path@, self.size)
    }
}

/// The records of a sequence of files.
pub open spec fn records(v: Seq<DuruFile>) -> Seq<Record> {
    v.map_values(|f: DuruFile| f@)
}

impl DuruFile {
    pub fn new(name: String, path: String, size: u64) -> (r: Self)
        ensures
            r@ == (name@, path@, size),
    {
        DuruFile { name, path, size }
    }

    /// The file record of a `File` node.
    pub fn from_node(node: Node) -> (r: Result<Self, DuruError>)
        ensures
            node matches Node::File { name, path, size } ==> r matches Ok(f) && f@ == (
                name@,
                path@,
                size,
            ),
            !(node is File) ==> r == Err::<DuruFile, DuruError>(DuruError::NotAFile),
    {
        match node {
            Node::File { name, path, size } => Ok(DuruFile::new(name, path, size)),
            _ => Err(DuruError::NotAFile),
        }
    }

    /// A second file record with the same contents.
    pub fn duplicate(&self) -> (r: Self)
        ensures
            r@ == self@,
    {
        DuruFile { name: self.name.clone(), path: self.path.clone(), size: self.size }
    }

    pub fn name(&self) -> (r: &String)
        ensures
            r@ == self@.0,
    {
        &self.name
    }

    pub fn path(&self) -> (r: &String)
        ensures
            r@ == self@.1,
    {
        &self.path
    }

    pub fn size(&self) -> (r: u64)
        ensures
            r == self@.2,
    {
        self.size
    }
}

/// The order of a sort by size.
pub enum SortOrder {
    Ascending,
    Descending,
}

/// `s`, sorted by size, with `x` placed after every record of `s` whose size
/// is at most its own.
pub open spec fn insert_by_size(s: Seq<Record>, x: Record) -> Seq<Record>
    decreases s.len(),
{
    if s.len() == 0 {
        seq![x]
    } else if s.last().2 <= x.2 {
        s.push(x)
    } else {
        insert_by_size(s.drop_last(), x).push(s.last())
    }
}

/// `s` sorted by ascending size; records of equal size keep their order.
pub open spec fn sorted_by_size(s: Seq<Record>) -> Seq<Record>
    decreases s.len(),
{
    if s.len() == 0 {
        s
    } else {
        insert_by_size(sorted_by_size(s.drop_last()), s.last())
    }
}

/// `s` sorted as `order` asks: by ascending size, or the ascending order
/// reversed.
pub open spec fn sorted_as(s: Seq<Record>, order: SortOrder) -> Seq<Record> {
    match order {
        SortOrder::Ascending => sorted_by_size(s),
        SortOrder::Descending => sorted_by_size(s).reverse(),
    }
}

/// Whether the sizes of `s` never decrease.
pub open spec fn ascending(s: Seq<Record>) -> bool {
    forall|i: int, j: int| 0 <= i <= j < s.len() ==> s[i].2 <= s[j].2
}

/// Whether the sizes of `s` never increase.
pub open spec fn descending(s: Seq<Record>) -> bool {
    forall|i: int, j: int| 0 <= i <= j < s.len() ==> s[i].2 >= s[j].2
}

/// Inserting at the place after the last record no larger than `x`.
proof fn lemma_insert_at(s: Seq<Record>, x: Record, p: int)
    requires
        0 <= p <= s.len(),
        forall|q: int| p <= q < s.len() ==> s[q].2 > x.2,
        p == 0 || s[p - 1].2 <= x.2,
    ensures
        insert_by_size(s, x) == s.insert(p, x),
    decreases s.len(),
{
    if s.len() == 0 {
        assert(s.insert(p, x) =~= seq![x]);
    } else if s.last().2 <= x.2 {
        assert(s.insert(p, x) =~= s.push(x));
    } else {
        lemma_insert_at(s.drop_last(), x, p);
        assert(s.insert(p, x) =~= s.drop_last().insert(p, x).push(s.last()));
    }
}

/// The largest size that inserting `x` into the ascending `s` can meet.
spec fn insert_bound(s: Seq<Record>, x: Record) -> u64 {
    if s.len() > 0 && s.last().2 > x.2 {
        s.last().2
    } else {
        x.2
    }
}

/// Inserting into an ascending sequence keeps it ascending and adds `x`.
proof fn lemma_insert_ascending(s: Seq<Record>, x: Record)
    requires
        ascending(s),
    ensures
        ascending(insert_by_size(s, x)),
        insert_by_size(s, x).len() == s.len() + 1,
        insert_by_size(s, x).to_multiset() == s.to_multiset().insert(x),
        forall|k: int|
            0 <= k < insert_by_size(s, x).len() ==> #[trigger] insert_by_size(s, x)[k].2
                <= insert_bound(s, x),
    decreases s.len(),
{
    broadcast use vstd::seq_lib::group_seq_properties, vstd::multiset::group_multiset_axioms;

    if s.len() == 0 {
        assert(insert_by_size(s, x) =~= seq![x]);
        assert(seq![x] =~= Seq::<Record>::empty().push(x));
    } else if s.last().2 <= x.2 {
    } else {
        let d = s.drop_last();
        assert(ascending(d));
        lemma_insert_ascending(d, x);
        let t = insert_by_size(d, x);
        assert(insert_bound(d, x) <= s.last().2);
        assert forall|k: int| 0 <= k < t.len() implies t[k].2 <= s.last().2 by {
            assert(t[k].2 <= insert_bound(d, x));
        }
        assert(s =~= d.push(s.last()));
    }
}

/// The stable sort orders by ascending size and keeps every record.
proof fn lemma_sorted_by_size(s: Seq<Record>)
    ensures
        ascending(sorted_by_size(s)),
        sorted_by_size(s).len() == s.len(),
        sorted_by_size(s).to_multiset() == s.to_multiset(),
    decreases s.len(),
{
    broadcast use vstd::seq_lib::group_seq_properties, vstd::multiset::group_multiset_axioms;
    if s.len() > 0 {
        lemma_sorted_by_size(s.drop_last());
        lemma_insert_ascending(sorted_by_size(s.drop_last()), s.last());
        assert(s =~= s.drop_last().push(s.last()));
    }
}

/// A sort by size yields sizes that never decrease when ascending and never
/// increase when descending, and keeps every record of the list.
pub proof fn lemma_sort_orders_sizes(s: Seq<Record>)
    ensures
        ascending(sorted_as(s, SortOrder::Ascending)),
        descending(sorted_as(s, SortOrder::Descending)),
        sorted_as(s, SortOrder::Ascending).to_multiset() == s.to_multiset(),
        sorted_as(s, SortOrder::Descending).to_multiset() == s.to_multiset(),
{
    lemma_sorted_by_size(s);
    let t = sorted_by_size(s);
    t.lemma_reverse_to_multiset();
    assert forall|i: int, j: int| 0 <= i <= j < t.reverse().len() implies t.reverse()[i].2
        >= t.reverse()[j].2 by {
        assert(t.reverse()[i] == t[t.len() - 1 - i]);
        assert(t.reverse()[j] == t[t.len() - 1 - j]);
    }
}

/// Places `x` into the ascending list `v` after every record no larger.
fn insert_file(v: &mut Vec<DuruFile>, x: DuruFile)
    requires
        ascending(records(old(v)@)),
    ensures
        records(final(v)@) == insert_by_size(records(old(v)@), x@),
{
    let ghost s = records(v@);
    let mut p: usize = v.len();
    while p > 0 && v[p - 1].size > x.size
        invariant
            p <= v.len(),
            s == records(v@),
            forall|q: int| p <= q < s.len() ==> s[q].2 > x@.2,
        decreases p,
    {
        p = p - 1;
    }
    proof {
        lemma_insert_at(s, x@, p as int);
    }
    v.insert(p, x);
    assert(records(v@) =~= s.insert(p as int, x@));
}

proof fn lemma_records_push(v: Seq<DuruFile>, x: DuruFile)
    ensures
        records(v.push(x)) == records(v).push(x@),
{
    assert(records(v.push(x)) =~= records(v).push(x@));
}

proof fn lemma_views_push(v: Seq<String>, x: String)
    ensures
        views(v.push(x)) == views(v).push(x@),
{
    assert(views(v.push(x)) =~= views(v).push(x@));
}

proof fn lemma_records_prefix(v: Seq<DuruFile>, w: Seq<DuruFile>)
    requires
        w.len() <= v.len(),
        w == v.subrange(0, w.len() as int),
    ensures
        records(w) == records(v).subrange(0, w.len() as int),
{
    assert(records(w) =~= records(v).subrange(0, w.len() as int));
}

/// The files of `v` in reverse order.
fn reversed(v: Vec<DuruFile>) -> (r: Vec<DuruFile>)
    ensures
        records(r@) == records(v@).reverse(),
{
    let ghost s = records(v@);
    let mut v = v;
    let mut r: Vec<DuruFile> = Vec::new();
    while v.len() > 0
        invariant
            v@.len() <= s.len(),
            records(v@) == s.subrange(0, v@.len() as int),
            records(r@) == s.subrange(v@.len() as int, s.len() as int).reverse(),
        decreases v.len(),
    {
        let ghost old_v = v@;
        let x = v.pop().unwrap();
        assert(records(old_v)[old_v.len() - 1] == x@);
        assert(s[v@.len() as int] == x@);
        let ghost old_r = r@;
        r.push(x);
        proof {
            lemma_records_push(old_r, x);
            lemma_records_prefix(old_v, v@);
        }
        assert(records(v@) =~= s.subrange(0, v@.len() as int));
        assert(records(r@) =~= s.subrange(v@.len() as int, s.len() as int).reverse());
    }
    assert(s.subrange(0, s.len() as int) =~= s);
    r
}

/// `k` spaces.
pub open spec fn spaces(k: nat) -> Seq<char> {
    Seq::new(k, |i: int| ' ')
}

/// The largest length among `labels`, 0 where there is none.
pub open spec fn max_len(labels: Seq<Seq<char>>) -> nat
    decreases labels.len(),
{
    if labels.len() == 0 {
        0
    } else if labels.last().len() > max_len(labels.drop_last()) {
        labels.last().len()
    } else {
        max_len(labels.drop_last())
    }
}

/// The views of a sequence of strings.
pub open spec fn views(v: Seq<String>) -> Seq<Seq<char>> {
    v.map_values(|s: String| s@)
}

/// The number of spaces after the label `i` that brings every label of
/// `labels` to one width, one more than the widest label.
pub open spec fn indent_of(labels: Seq<Seq<char>>, i: int) -> int {
    max_len(labels) - labels[i].len() + 1
}

/// The label `i` of `labels` padded to the common width.
pub open spec fn padded(labels: Seq<Seq<char>>, i: int) -> Seq<char> {
    labels[i] + spaces(indent_of(labels, i) as nat)
}

/// Line `i` of a rendering: the padded label followed by the size text.
pub open spec fn rendered(labels: Seq<Seq<char>>, sizes: Seq<Seq<char>>, i: int) -> Seq<char> {
    padded(labels, i) + sizes[i]
}

/// The lines of a rendering: one per label that has a size text.
pub open spec fn rendering(labels: Seq<Seq<char>>, sizes: Seq<Seq<char>>) -> Seq<Seq<char>> {
    let n = if labels.len() < sizes.len() {
        labels.len()
    } else {
        sizes.len()
    };
    Seq::new(n, |i: int| rendered(labels, sizes, i))
}

/// The name labels of a list of records.
pub open spec fn name_labels(s: Seq<Record>) -> Seq<Seq<char>> {
    s.map_values(|r: Record| r.0)
}

/// The full-path labels of a list of records: the path joined with the name.
pub open spec fn path_labels(s: Seq<Record>) -> Seq<Seq<char>> {
    s.map_values(|r: Record| joined(r.1, r.0))
}

/// The lines of a rendering, each followed by a newline.
pub open spec fn text_of(lines: Seq<Seq<char>>) -> Seq<char>
    decreases lines.len(),
{
    if lines.len() == 0 {
        Seq::empty()
    } else {
        text_of(lines.drop_last()) + lines.last() + seq!['\n']
    }
}

proof fn lemma_max_len_bounds(labels: Seq<Seq<char>>, i: int)
    requires
        0 <= i < labels.len(),
    ensures
        labels[i].len() <= max_len(labels),
    decreases labels.len(),
{
    if i < labels.len() - 1 {
        lemma_max_len_bounds(labels.drop_last(), i);
    }
}

/// Every line of a rendering has its size text start at the same column,
/// one past the widest label, whatever the lengths of the labels: before it
/// stand the label and its padding, from it on the size text.
pub proof fn lemma_size_column(labels: Seq<Seq<char>>, sizes: Seq<Seq<char>>, i: int)
    requires
        0 <= i < rendering(labels, sizes).len(),
    ensures
        ({
            let line = rendering(labels, sizes)[i];
            let col = max_len(labels) as int + 1;
            &&& col <= line.len()
            &&& line.subrange(0, col) == labels[i] + spaces((col - labels[i].len()) as nat)
            &&& line.subrange(col, line.len() as int) == sizes[i]
        }),
{
    lemma_max_len_bounds(labels, i);
    let line = rendering(labels, sizes)[i];
    let col = max_len(labels) as int + 1;
    assert(line == rendered(labels, sizes, i));
    assert(line.subrange(0, col) =~= labels[i] + spaces((col - labels[i].len()) as nat));
    assert(line.subrange(col, line.len() as int) =~= sizes[i]);
}

/// A string with the number of spaces that follow it.
pub struct IndentedString {
    value: String,
    indent: usize,
}

impl View for IndentedString {
    type V = (Seq<char>, usize);

    closed spec fn view(&self) -> (Seq<char>, usize) {
        (self.value@, self.indent)
    }
}

impl IndentedString {
    pub fn new(value: String, indent: usize) -> (r: Self)
        ensures
            r@ == (value@, indent),
    {
        IndentedString { value, indent }
    }

    /// The string followed by its spaces.
    pub fn to_string(&self) -> (r: String)
        ensures
            r@ == self@.0 + spaces(self@.1 as nat),
    {
        let mut r = self.value.clone();
        let mut i: usize = 0;
        proof {
            reveal_strlit(" ");
        }
        while i < self.indent
            invariant
                i <= self.indent,
                r@ == self.value@ + spaces(i as nat),
            decreases self.indent - i,
        {
            let ghost before = r@;
            r.append(" ");
            proof {
                reveal_strlit(" ");
                assert(" "@ =~= seq![' ']);
            }
            assert(r@ =~= self.value@ + spaces(i as nat + 1));
            i = i + 1;
        }
        r
    }
}

/// The labels followed by their size texts, as many lines as both have.
fn size_lines(istrs: &Vec<IndentedString>, sizes: &Vec<String>) -> (r: Vec<String>)
    ensures
        r@.len() == if istrs@.len() < sizes@.len() { istrs@.len() } else { sizes@.len() },
        forall|i: int|
            0 <= i < r@.len() ==> #[trigger] r@[i]@ == istrs@[i]@.0 + spaces(
                istrs@[i]@.1 as nat,
            ) + sizes@[i]@,
{
    let n = if istrs.len() < sizes.len() {
        istrs.len()
    } else {
        sizes.len()
    };
    let mut r: Vec<String> = Vec::new();
    let mut i: usize = 0;
    while i < n
        invariant
            n <= istrs@.len(),
            n <= sizes@.len(),
            n == if istrs@.len() < sizes@.len() { istrs@.len() } else { sizes@.len() },
            i <= n,
            r@.len() == i,
            forall|j: int|
                0 <= j < i ==> #[trigger] r@[j]@ == istrs@[j]@.0 + spaces(istrs@[j]@.1 as nat)
                    + sizes@[j]@,
        decreases n - i,
    {
        let mut line = istrs[i].to_string();
        line.append(sizes[i].as_str());
        r.push(line);
        i = i + 1;
    }
    r
}

/// The list of files that is sorted, truncated and rendered.
#[derive(Debug)]
pub struct DuruList {
    files: Vec<DuruFile>,
}

impl View for DuruList {
    type V = Seq<Record>;

    closed spec fn view(&self) -> Seq<Record> {
        records(self.files@)
    }
}

impl DuruList {
    pub fn new(files: Vec<DuruFile>) -> (r: Self)
        ensures
            r@ == records(files@),
    {
        DuruList { files }
    }

    /// The files, in the list's order.
    pub fn files(&self) -> (r: &Vec<DuruFile>)
        ensures
            records(r@) == self@,
    {
        &self.files
    }

    /// Sorts the files by size as `sort_order` asks.  Ascending, files of
    /// equal size keep their order; descending is the ascending order
    /// reversed, so files of equal size come in reverse order.
    pub fn sort_by_size(&mut self, sort_order: SortOrder)
        ensures
            final(self)@ == sorted_as(old(self)@, sort_order),
    {
        let ghost s = self@;
        let mut rest: Vec<DuruFile> = Vec::new();
        core::mem::swap(&mut self.files, &mut rest);
        let mut sorted: Vec<DuruFile> = Vec::new();
        let ghost n = rest@.len();
        while rest.len() > 0
            invariant
                rest@.len() <= n,
                n == s.len(),
                records(rest@) == s.subrange(n - rest@.len(), n as int),
                records(sorted@) == sorted_by_size(s.subrange(0, n - rest@.len())),
            decreases rest.len(),
        {
            let ghost done = s.subrange(0, n - rest@.len());
            let ghost old_rest = rest@;
            let x = rest.remove(0);
            assert(records(old_rest)[0] == x@);
            assert(s.subrange(n - old_rest.len(), n as int)[0] == s[n - old_rest.len()]);
            proof {
                lemma_sorted_by_size(done);
                let next = s.subrange(0, n - rest@.len());
                assert(next.drop_last() =~= done);
                assert(next.last() == x@);
            }
            insert_file(&mut sorted, x);
            proof {
                assert(rest@ =~= old_rest.subrange(1, old_rest.len() as int));
                assert forall|k: int| 0 <= k < rest@.len() implies records(rest@)[k] == s.subrange(
                    n - rest@.len(),
                    n as int,
                )[k] by {
                    assert(rest@[k] == old_rest[k + 1]);
                    assert(records(old_rest)[k + 1] == old_rest[k + 1]@);
                }
            }
            assert(records(rest@) =~= s.subrange(n - rest@.len(), n as int));
        }
        assert(s.subrange(0, n as int) =~= s);
        match sort_order {
            SortOrder::Ascending => {
                self.files = sorted;
            },
            SortOrder::Descending => {
                self.files = reversed(sorted);
            },
        }
    }

    /// The first `n` files, or all of them where there are fewer.
    pub fn head(&self, n: usize) -> (r: DuruList)
        ensures
            r@ == self@.subrange(0, if n < self@.len() { n as int } else { self@.len() as int }),
    {
        let k = if n < self.files.len() {
            n
        } else {
            self.files.len()
        };
        let mut v: Vec<DuruFile> = Vec::new();
        let mut i: usize = 0;
        while i < k
            invariant
                k <= self.files@.len(),
                i <= k,
                records(v@) == self@.subrange(0, i as int),
            decreases k - i,
        {
            let ghost old_v = v@;
            let d = self.files[i].duplicate();
            v.push(d);
            proof {
                lemma_records_push(old_v, d);
                assert(self@[i as int] == self.files@[i as int]@);
                assert(records(v@) =~= self@.subrange(0, i as int + 1));
            }
            i = i + 1;
        }
        DuruList::new(v)
    }

    /// Pads each label with the spaces that bring every label to one width,
    /// one more than the widest.
    pub fn to_indented_string(strings: Vec<String>) -> (r: Vec<IndentedString>)
        requires
            max_len(views(strings@)) < usize::MAX,
        ensures
            r@.len() == strings@.len(),
            forall|i: int|
                0 <= i < r@.len() ==> (#[trigger] r@[i])@.0 == strings@[i]@ && r@[i]@.1 == indent_of(
                    views(strings@),
                    i,
                ),
    {
        let ghost labels = views(strings@);
        let mut max_chars: usize = 0;
        let mut i: usize = 0;
        while i < strings.len()
            invariant
                i <= strings@.len(),
                labels == views(strings@),
                max_chars == max_len(labels.subrange(0, i as int)),
            decreases strings.len() - i,
        {
            let c = strings[i].as_str().unicode_len();
            proof {
                let t = labels.subrange(0, i as int + 1);
                assert(t.drop_last() =~= labels.subrange(0, i as int));
            }
            if c > max_chars {
                max_chars = c;
            }
            i = i + 1;
        }
        assert(labels.subrange(0, strings@.len() as int) =~= labels);
        let mut r: Vec<IndentedString> = Vec::new();
        let mut j: usize = 0;
        while j < strings.len()
            invariant
                j <= strings@.len(),
                labels == views(strings@),
                max_chars == max_len(labels),
                max_chars < usize::MAX,
                r@.len() == j,
                forall|k: int|
                    0 <= k < j ==> (#[trigger] r@[k])@.0 == strings@[k]@ && r@[k]@.1 == indent_of(
                        labels,
                        k,
                    ),
            decreases strings.len() - j,
        {
            let c = strings[j].as_str().unicode_len();
            proof {
                lemma_max_len_bounds(labels, j as int);
            }
            r.push(IndentedString::new(strings[j].clone(), max_chars - c + 1));
            j = j + 1;
        }
        r
    }

    /// The names of the files, each padded to the common width.
    fn name_indented_string(&self) -> (r: Vec<IndentedString>)
        requires
            max_len(name_labels(self@)) < usize::MAX,
        ensures
            r@.len() == self@.len(),
            forall|i: int|
                0 <= i < r@.len() ==> (#[trigger] r@[i])@.0 == name_labels(self@)[i] && r@[i]@.1
                    == indent_of(name_labels(self@), i),
    {
        let mut names: Vec<String> = Vec::new();
        let mut i: usize = 0;
        while i < self.files.len()
            invariant
                i <= self.files@.len(),
                names@.len() == i,
                views(names@) == name_labels(self@).subrange(0, i as int),
            decreases self.files.len() - i,
        {
            let ghost before = names@;
            names.push(self.files[i].name.clone());
            proof {
                lemma_views_push(before, names@[i as int]);
                assert(name_labels(self@)[i as int] == self.files@[i as int].name@);
            }
            assert(views(names@) =~= name_labels(self@).subrange(0, i as int + 1));
            i = i + 1;
        }
        assert(name_labels(self@).subrange(0, self@.len() as int) =~= name_labels(self@));
        DuruList::to_indented_string(names)
    }

    /// The full paths of the files, each padded to the common width.
    fn path_indented_string(&self) -> (r: Vec<IndentedString>)
        requires
            max_len(path_labels(self@)) < usize::MAX,
        ensures
            r@.len() == self@.len(),
            forall|i: int|
                0 <= i < r@.len() ==> (#[trigger] r@[i])@.0 == path_labels(self@)[i] && r@[i]@.1
                    == indent_of(path_labels(self@), i),
    {
        let mut paths: Vec<String> = Vec::new();
        let mut i: usize = 0;
        while i < self.files.len()
            invariant
                i <= self.files@.len(),
                paths@.len() == i,
                views(paths@) == path_labels(self@).subrange(0, i as int),
            decreases self.files.len() - i,
        {
            let f = &self.files[i];
            let ghost before = paths@;
            paths.push(join_path(&f.path, &f.name));
            proof {
                lemma_views_push(before, paths@[i as int]);
                assert(path_labels(self@)[i as int] == joined(
                    self.files@[i as int].path@,
                    self.files@[i as int].name@,
                ));
            }
            assert(views(paths@) =~= path_labels(self@).subrange(0, i as int + 1));
            i = i + 1;
        }
        assert(path_labels(self@).subrange(0, self@.len() as int) =~= path_labels(self@));
        DuruList::to_indented_string(paths)
    }

    /// The lines of the name rendering: each file's name padded to the
    /// common width, then its size text from `sizes`, which holds the size
    /// text of each file in order.
    pub fn name_size_lines(&self, sizes: &Vec<String>) -> (r: Vec<String>)
        requires
            max_len(name_labels(self@)) < usize::MAX,
        ensures
            views(r@) == rendering(name_labels(self@), views(sizes@)),
    {
        let istrs = self.name_indented_string();
        let r = size_lines(&istrs, sizes);
        assert forall|i: int| 0 <= i < r@.len() implies #[trigger] r@[i]@ == rendered(
            name_labels(self@),
            views(sizes@),
            i,
        ) by {
            assert(istrs@[i]@.0 == name_labels(self@)[i] && istrs@[i]@.1 == indent_of(name_labels(self@), i));
            lemma_max_len_bounds(name_labels(self@), i);
        }
        assert(views(r@) =~= rendering(name_labels(self@), views(sizes@)));
        r
    }

    /// The lines of the full-path rendering: each file's directory path
    /// joined with its name, padded to the common width, then its size text
    /// from `sizes`.
    pub fn path_size_lines(&self, sizes: &Vec<String>) -> (r: Vec<String>)
        requires
            max_len(path_labels(self@)) < usize::MAX,
        ensures
            views(r@) == rendering(path_labels(self@), views(sizes@)),
    {
        let istrs = self.path_indented_string();
        let r = size_lines(&istrs, sizes);
        assert forall|i: int| 0 <= i < r@.len() implies #[trigger] r@[i]@ == rendered(
            path_labels(self@),
            views(sizes@),
            i,
        ) by {
            assert(istrs@[i]@.0 == path_labels(self@)[i] && istrs@[i]@.1 == indent_of(path_labels(self@), i));
            lemma_max_len_bounds(path_labels(self@), i);
        }
        assert(views(r@) =~= rendering(path_labels(self@), views(sizes@)));
        r
    }

    /// The name rendering as one text, each line followed by a newline.
    pub fn to_string(&self, sizes: &Vec<String>) -> (r: String)
        requires
            max_len(name_labels(self@)) < usize::MAX,
        ensures
            r@ == text_of(rendering(name_labels(self@), views(sizes@))),
    {
        let lines = self.name_size_lines(sizes);
        let mut r = String::new();
        let mut i: usize = 0;
        proof {
            reveal_strlit("\n");
        }
        while i < lines.len()
            invariant
                i <= lines@.len(),
                r@ == text_of(views(lines@).subrange(0, i as int)),
            decreases lines.len() - i,
        {
            r.append(lines[i].as_str());
            r.append("\n");
            proof {
                let t = views(lines@).subrange(0, i as int + 1);
                assert(t.drop_last() =~= views(lines@).subrange(0, i as int));
                assert(t.last() == lines@[i as int]@);
                reveal_strlit("\n");
                assert("\n"@ =~= seq!['\n']);
            }
            i = i + 1;
        }
        assert(views(lines@).subrange(0, lines@.len() as int) =~= views(lines@));
        r
    }
}

} // verus!
