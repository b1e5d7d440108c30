use vstd::prelude::*;

verus! {

/// One key of a configuration document with the keys nested under its value,
/// as indices into the document's node list.
pub struct DocNode {
    pub key: String,
    pub children: Vec<usize>,
}

/// A nested ordered mapping: the top-level keys `top`, each an index into
/// `nodes`, and for every node the ordered keys of its value.
pub struct ConfigDocument {
    pub top: Vec<usize>,
    pub nodes: Vec<DocNode>,
}

pub enum PositionError {
    EmptyDocument,
    NotNavigable,
}

/// A key that marks a disabled entry: it starts with `#`.
pub open spec fn is_marker(k: Seq<char>) -> bool {
    k.len() > 0 && k[0] == '#'
}

impl ConfigDocument {
    /// Every index held by the document names one of its nodes.
    pub open spec fn wf(&self) -> bool {
        &&& forall|i: int| 0 <= i < self.top.len() ==> self.top@[i] < self.nodes.len()
        &&& forall|n: int, j: int|
            0 <= n < self.nodes.len() && 0 <= j < self.nodes@[n].children.len()
                ==> self.nodes@[n].children@[j] < self.nodes.len()
    }

    pub fn is_well_formed(&self) -> (r: bool)
        ensures
            r == self.wf(),
    {
        let mut i: usize = 0;
        while i < self.top.len()
            invariant
                i <= self.top.len(),
                forall|k: int| 0 <= k < i ==> self.top@[k] < self.nodes.len(),
            decreases self.top.len() - i,
        {
            if self.top[i] >= self.nodes.len() {
                return false;
            }
            i = i + 1;
        }
        let mut n: usize = 0;
        while n < self.nodes.len()
            invariant
                n <= self.nodes.len(),
                forall|k: int| 0 <= k < self.top.len() ==> self.top@[k] < self.nodes.len(),
                forall|m: int, j: int|
                    0 <= m < n && 0 <= j < self.nodes@[m].children.len()
                        ==> self.nodes@[m].children@[j] < self.nodes.len(),
            decreases self.nodes.len() - n,
        {
            let children = &self.nodes[n].children;
            let mut j: usize = 0;
            while j < children.len()
                invariant
                    n < self.nodes.len(),
                    children == &self.nodes@[n as int].children,
                    j <= children.len(),
                    forall|k: int| 0 <= k < j ==> children@[k] < self.nodes.len(),
                decreases children.len() - j,
            {
                if children[j] >= self.nodes.len() {
                    return false;
                }
                j = j + 1;
            }
            n = n + 1;
        }
        true
    }
}

/// Index `i` of the mapping `level` holds a key that can be selected.
pub open spec fn selectable(doc: ConfigDocument, level: Seq<usize>, i: int) -> bool {
    0 <= i < level.len() && !is_marker(doc.nodes@[level[i] as int].key@)
}

/// The mapping shown at depth `d` when the keys chosen at the depths above it
/// are those of `nums`.
pub open spec fn level_at(doc: ConfigDocument, nums: Seq<usize>, d: nat) -> Seq<usize>
    decreases d,
{
    if d == 0 {
        doc.top@
    } else {
        let parent = level_at(doc, nums, (d - 1) as nat);
        let i = nums[d - 1];
        if i < parent.len() && parent[i as int] < doc.nodes.len() {
            doc.nodes@[parent[i as int] as int].children@
        } else {
            Seq::empty()
        }
    }
}

/// The first selectable index of `level` at or after `from`.
pub open spec fn next_selectable(doc: ConfigDocument, level: Seq<usize>, from: int) -> Option<int>
    decreases level.len() - from,
{
    if from < 0 || from >= level.len() {
        None
    } else if selectable(doc, level, from) {
        Some(from)
    } else {
        next_selectable(doc, level, from + 1)
    }
}

/// The last selectable index of `level` at or before `from`.
pub open spec fn prev_selectable(doc: ConfigDocument, level: Seq<usize>, from: int) -> Option<int>
    decreases from + 1,
{
    if from < 0 || from >= level.len() {
        None
    } else if selectable(doc, level, from) {
        Some(from)
    } else {
        prev_selectable(doc, level, from - 1)
    }
}

/// At depth `d` the cursor `nums` selects a selectable key.
pub open spec fn picks(doc: ConfigDocument, nums: Seq<usize>, d: int) -> bool {
    selectable(doc, level_at(doc, nums, d as nat), nums[d] as int)
}

/// Every depth of the cursor `nums` selects a selectable key.
pub open spec fn cursor_ok(doc: ConfigDocument, nums: Seq<usize>) -> bool {
    forall|d: int| 0 <= d < nums.len() ==> #[trigger] picks(doc, nums, d)
}

/// The cursor after moving forward at depth `d`: the next selectable key, with
/// the deeper levels dropped; unchanged when there is none.
pub open spec fn advance_nums(doc: ConfigDocument, nums: Seq<usize>, d: int) -> Seq<usize> {
    if d < 0 || d >= nums.len() {
        nums
    } else {
        match next_selectable(doc, level_at(doc, nums, d as nat), nums[d] + 1) {
            Some(j) => nums.subrange(0, d).push(j as usize),
            None => nums,
        }
    }
}

/// The cursor after moving back at depth `d`, symmetric to `advance_nums`.
pub open spec fn retreat_nums(doc: ConfigDocument, nums: Seq<usize>, d: int) -> Seq<usize> {
    if d < 0 || d >= nums.len() {
        nums
    } else {
        match prev_selectable(doc, level_at(doc, nums, d as nat), nums[d] - 1) {
            Some(j) => nums.subrange(0, d).push(j as usize),
            None => nums,
        }
    }
}

/// `advance_nums` applied `n` times.
pub open spec fn advance_times(doc: ConfigDocument, nums: Seq<usize>, d: int, n: nat) -> Seq<
    usize,
>
    decreases n,
{
    if n == 0 {
        nums
    } else {
        advance_times(doc, advance_nums(doc, nums, d), d, (n - 1) as nat)
    }
}

proof fn lemma_next_selectable(doc: ConfigDocument, level: Seq<usize>, from: int)
    requires
        from >= 0,
    ensures
        match next_selectable(doc, level, from) {
            Some(j) => from <= j < level.len() && selectable(doc, level, j) && forall|k: int|
                from <= k < j ==> !selectable(doc, level, k),
            None => forall|k: int| from <= k ==> !selectable(doc, level, k),
        },
    decreases level.len() - from,
{
    if from < level.len() && !selectable(doc, level, from) {
        lemma_next_selectable(doc, level, from + 1);
    }
}

proof fn lemma_prev_selectable(doc: ConfigDocument, level: Seq<usize>, from: int)
    requires
        from < level.len(),
    ensures
        match prev_selectable(doc, level, from) {
            Some(j) => 0 <= j <= from && selectable(doc, level, j) && forall|k: int|
                j < k <= from ==> !selectable(doc, level, k),
            None => forall|k: int| k <= from ==> !selectable(doc, level, k),
        },
    decreases from + 1,
{
    if from >= 0 && !selectable(doc, level, from) {
        lemma_prev_selectable(doc, level, from - 1);
    }
}

/// A level depends only on the choices made above it.
proof fn lemma_level_prefix(doc: ConfigDocument, a: Seq<usize>, b: Seq<usize>, d: nat)
    requires
        forall|k: int| 0 <= k < d ==> a[k] == b[k],
    ensures
        level_at(doc, a, d) == level_at(doc, b, d),
    decreases d,
{
    if d > 0 {
        lemma_level_prefix(doc, a, b, (d - 1) as nat);
    }
}

/// In a well-formed document every level holds indices of nodes.
proof fn lemma_level_in_range(doc: ConfigDocument, nums: Seq<usize>, d: nat)
    requires
        doc.wf(),
    ensures
        forall|i: int|
            0 <= i < level_at(doc, nums, d).len() ==> level_at(doc, nums, d)[i] < doc.nodes.len(),
    decreases d,
{
    if d > 0 {
        lemma_level_in_range(doc, nums, (d - 1) as nat);
    }
}

/// Keeping the first `e` choices of a sound cursor and choosing a selectable
/// key at depth `e` gives a sound cursor with the same levels.
proof fn lemma_extend(doc: ConfigDocument, nums: Seq<usize>, e: int, j: usize)
    requires
        cursor_ok(doc, nums),
        0 <= e <= nums.len(),
        selectable(doc, level_at(doc, nums, e as nat), j as int),
    ensures
        cursor_ok(doc, nums.subrange(0, e).push(j)),
        forall|f: nat| f <= e ==> level_at(doc, nums.subrange(0, e).push(j), f) == level_at(doc, nums, f),
{
    let m = nums.subrange(0, e).push(j);
    assert forall|f: nat| f <= e implies level_at(doc, m, f) == level_at(doc, nums, f) by {
        lemma_level_prefix(doc, m, nums, f);
    }
    assert forall|d: int| 0 <= d < m.len() implies #[trigger] picks(doc, m, d) by {
        assert(level_at(doc, m, d as nat) == level_at(doc, nums, d as nat));
        if d < e {
            assert(picks(doc, nums, d));
        }
    }
}

/// Keeping the first `e` choices of a sound cursor gives a sound cursor with
/// the same levels.
proof fn lemma_truncate(doc: ConfigDocument, nums: Seq<usize>, e: int)
    requires
        cursor_ok(doc, nums),
        0 <= e <= nums.len(),
    ensures
        cursor_ok(doc, nums.subrange(0, e)),
        forall|f: nat| f <= e ==> level_at(doc, nums.subrange(0, e), f) == level_at(doc, nums, f),
{
    let m = nums.subrange(0, e);
    assert forall|f: nat| f <= e implies level_at(doc, m, f) == level_at(doc, nums, f) by {
        lemma_level_prefix(doc, m, nums, f);
    }
    assert forall|d: int| 0 <= d < m.len() implies #[trigger] picks(doc, m, d) by {
        assert(level_at(doc, m, d as nat) == level_at(doc, nums, d as nat));
        assert(picks(doc, nums, d));
    }
}

fn is_marker_key(k: &String) -> (r: bool)
    ensures
        r == is_marker(k@),
{
    let s = k.as_str();
    s.unicode_len() > 0 && s.get_char(0) == '#'
}

/// The first selectable index of `level` at or after `from`.
fn next_index(doc: &ConfigDocument, level: &Vec<usize>, from: usize) -> (r: Option<usize>)
    requires
        forall|i: int| 0 <= i < level.len() ==> level@[i] < doc.nodes.len(),
    ensures
        match r {
            Some(j) => next_selectable(*doc, level@, from as int) == Some(j as int),
            None => next_selectable(*doc, level@, from as int) is None,
        },
{
    let mut i = from;
    while i < level.len()
        invariant
            from <= i,
            forall|k: int| 0 <= k < level.len() ==> level@[k] < doc.nodes.len(),
            next_selectable(*doc, level@, from as int) == next_selectable(*doc, level@, i as int),
        decreases level.len() - i,
    {
        if !is_marker_key(&doc.nodes[level[i]].key) {
            return Some(i);
        }
        i = i + 1;
    }
    None
}

/// The last selectable index of `level` before `upto`.
fn prev_index(doc: &ConfigDocument, level: &Vec<usize>, upto: usize) -> (r: Option<usize>)
    requires
        upto <= level.len(),
        forall|i: int| 0 <= i < level.len() ==> level@[i] < doc.nodes.len(),
    ensures
        match r {
            Some(j) => prev_selectable(*doc, level@, upto - 1) == Some(j as int),
            None => prev_selectable(*doc, level@, upto - 1) is None,
        },
{
    let mut i = upto;
    while i > 0
        invariant
            i <= upto,
            upto <= level.len(),
            forall|k: int| 0 <= k < level.len() ==> level@[k] < doc.nodes.len(),
            prev_selectable(*doc, level@, upto - 1) == prev_selectable(*doc, level@, i - 1),
        decreases i,
    {
        if !is_marker_key(&doc.nodes[level[i - 1]].key) {
            return Some(i - 1);
        }
        i = i - 1;
    }
    None
}

proof fn lemma_advance_fixpoint(doc: ConfigDocument, nums: Seq<usize>, d: int, n: nat)
    requires
        advance_nums(doc, nums, d) == nums,
    ensures
        advance_times(doc, nums, d, n) == nums,
    decreases n,
{
    if n > 0 {
        lemma_advance_fixpoint(doc, nums, d, (n - 1) as nat);
    }
}

proof fn lemma_advance_reaches_last(doc: ConfigDocument, nums: Seq<usize>, d: int, n: nat)
    requires
        cursor_ok(doc, nums),
        0 <= d < nums.len(),
        n + nums[d] >= level_at(doc, nums, d as nat).len(),
        level_at(doc, nums, d as nat).len() <= usize::MAX,
    ensures
        ({
            let r = advance_times(doc, nums, d, n);
            let lvl = level_at(doc, nums, d as nat);
            &&& d < r.len()
            &&& selectable(doc, lvl, r[d] as int)
            &&& forall|k: int| r[d] < k ==> !selectable(doc, lvl, k)
        }),
    decreases n,
{
    let lvl = level_at(doc, nums, d as nat);
    assert(picks(doc, nums, d));
    lemma_next_selectable(doc, lvl, nums[d] + 1);
    match next_selectable(doc, lvl, nums[d] + 1) {
        None => {
            lemma_advance_fixpoint(doc, nums, d, n);
        },
        Some(j) => {
            let m = advance_nums(doc, nums, d);
            lemma_extend(doc, nums, d, j as usize);
            assert(level_at(doc, m, d as nat) == lvl);
            lemma_advance_reaches_last(doc, m, d, (n - 1) as nat);
        },
    }
}

/// Binding a document whose top-level keys are all markers fails: there is no
/// key for the cursor to rest on.
pub proof fn lemma_bind_all_markers(doc: ConfigDocument)
    requires
        doc.wf(),
        forall|i: int| 0 <= i < doc.top.len() ==> is_marker(doc.nodes@[doc.top@[i] as int].key@),
    ensures
        next_selectable(doc, doc.top@, 0) is None,
{
    lemma_next_selectable(doc, doc.top@, 0);
}

/// Advancing at depth `d` as many times as the level has keys, or more,
/// leaves the cursor on the last key of that level that is not a marker, and
/// no advance ever takes it past that key or out of the level.
pub proof fn lemma_advance_saturates(doc: ConfigDocument, p: Position, d: int, n: nat)
    requires
        doc.wf(),
        p.consistent(doc),
        0 <= d < p.sec_num.len(),
    ensures
        ({
            let r = advance_times(doc, p.sec_num@, d, n);
            let lvl = level_at(doc, p.sec_num@, d as nat);
            &&& d < r.len()
            &&& r[d] < p.sec_length@[d]
            &&& selectable(doc, lvl, r[d] as int)
            &&& n >= p.sec_length@[d] ==> forall|k: int| r[d] < k ==> !selectable(doc, lvl, k)
        }),
{
    assert(p.sec_length@[d] == level_at(doc, p.sec_num@, d as nat).len());
    lemma_advance_stays(doc, p.sec_num@, d, n);
    let r = advance_times(doc, p.sec_num@, d, n);
    assert(picks(doc, r, d));
    if n >= p.sec_length@[d] {
        lemma_advance_reaches_last(doc, p.sec_num@, d, n);
    }
}

proof fn lemma_advance_stays(doc: ConfigDocument, nums: Seq<usize>, d: int, n: nat)
    requires
        cursor_ok(doc, nums),
        0 <= d < nums.len(),
        level_at(doc, nums, d as nat).len() <= usize::MAX,
    ensures
        ({
            let r = advance_times(doc, nums, d, n);
            &&& d < r.len()
            &&& cursor_ok(doc, r)
            &&& level_at(doc, r, d as nat) == level_at(doc, nums, d as nat)
        }),
    decreases n,
{
    if n > 0 {
        let lvl = level_at(doc, nums, d as nat);
        assert(picks(doc, nums, d));
        lemma_next_selectable(doc, lvl, nums[d] + 1);
        let m = advance_nums(doc, nums, d);
        match next_selectable(doc, lvl, nums[d] + 1) {
            None => {},
            Some(j) => {
                lemma_extend(doc, nums, d, j as usize);
            },
        }
        lemma_advance_stays(doc, m, d, (n - 1) as nat);
    }
    let r = advance_times(doc, nums, d, n);
    assert(picks(doc, r, d));
}

/// The editor's cursor into a configuration document: for each nesting depth
/// the number of keys of the mapping shown there (`sec_length`) and the index
/// of the selected key (`sec_num`). No depth at all means not yet bound.
pub struct Position {
    pub build_type: String,
    pub resource_sections: Vec<String>,
    pub config_file_name: String,
    pub sec_length: Vec<usize>,
    pub sec_num: Vec<usize>,
}

impl Position {
    /// The cursor fits `doc`: at each depth the length is that of the mapping
    /// shown there and the index selects a key that is not a marker.
    pub open spec fn consistent(&self, doc: ConfigDocument) -> bool {
        &&& self.sec_length.len() == self.sec_num.len()
        &&& cursor_ok(doc, self.sec_num@)
        &&& forall|d: int|
            0 <= d < self.sec_num.len() ==> self.sec_length@[d] == level_at(
                doc,
                self.sec_num@,
                d as nat,
            ).len()
    }

    /// Only the cursor changed between `self` and `other`.
    pub open spec fn same_session(&self, other: Position) -> bool {
        &&& self.build_type == other.build_type
        &&& self.resource_sections == other.resource_sections
        &&& self.config_file_name == other.config_file_name
    }

    /// A position that is not yet bound to a document.
    pub fn new(build_type: String, resource_sections: Vec<String>, config_file_name: String) -> (r:
        Position)
        ensures
            r.build_type == build_type,
            r.resource_sections == resource_sections,
            r.config_file_name == config_file_name,
            r.sec_num@.len() == 0,
            r.sec_length@.len() == 0,
    {
        Position {
            build_type,
            resource_sections,
            config_file_name,
            sec_length: Vec::new(),
            sec_num: Vec::new(),
        }
    }

    /// The mapping shown at depth `d`.
    fn level_of<'a>(&self, doc: &'a ConfigDocument, d: usize) -> (r: &'a Vec<usize>)
        requires
            doc.wf(),
            cursor_ok(*doc, self.sec_num@),
            d <= self.sec_num.len(),
        ensures
            r@ == level_at(*doc, self.sec_num@, d as nat),
            forall|i: int| 0 <= i < r.len() ==> r@[i] < doc.nodes.len(),
    {
        let mut lvl: &Vec<usize> = &doc.top;
        let mut k: usize = 0;
        while k < d
            invariant
                doc.wf(),
                cursor_ok(*doc, self.sec_num@),
                d <= self.sec_num.len(),
                k <= d,
                lvl@ == level_at(*doc, self.sec_num@, k as nat),
            decreases d - k,
        {
            proof {
                lemma_level_in_range(*doc, self.sec_num@, k as nat);
                assert(picks(*doc, self.sec_num@, k as int));
            }
            let i = self.sec_num[k];
            let node = lvl[i];
            lvl = &doc.nodes[node].children;
            k = k + 1;
        }
        proof {
            lemma_level_in_range(*doc, self.sec_num@, d as nat);
        }
        lvl
    }

    /// Binds the cursor to `doc`: one depth, on the first top-level key that
    /// is not a marker. Fails with `EmptyDocument`, leaving the position as it
    /// was, when there is no such key.
    pub fn bind(&mut self, doc: &ConfigDocument) -> (r: Result<(), PositionError>)
        requires
            doc.wf(),
        ensures
            r is Ok <==> next_selectable(*doc, doc.top@, 0) is Some,
            r is Ok ==> final(self).sec_num@ == seq![
                next_selectable(*doc, doc.top@, 0)->Some_0 as usize,
            ],
            r is Ok ==> final(self).consistent(*doc),
            r is Err ==> r == Err::<(), PositionError>(PositionError::EmptyDocument) && *final(self) == *old(self),
            final(self).same_session(*old(self)),
    {
        match next_index(doc, &doc.top, 0) {
            Some(j) => {
                proof {
                    lemma_next_selectable(*doc, doc.top@, 0);
                }
                let mut lens: Vec<usize> = Vec::new();
                lens.push(doc.top.len());
                let mut nums: Vec<usize> = Vec::new();
                nums.push(j);
                self.sec_length = lens;
                self.sec_num = nums;
                proof {
                    assert(level_at(*doc, self.sec_num@, 0) == doc.top@);
                    assert(self.sec_num@ =~= seq![j]);
                }
                Ok(())
            },
            None => Err(PositionError::EmptyDocument),
        }
    }

    /// Moves to the next selectable key at `depth`, dropping the deeper
    /// levels. At the last selectable key, or at a depth that is not open,
    /// nothing changes.
    pub fn advance(&mut self, doc: &ConfigDocument, depth: usize)
        requires
            doc.wf(),
            old(self).consistent(*doc),
        ensures
            final(self).sec_num@ == advance_nums(*doc, old(self).sec_num@, depth as int),
            final(self).consistent(*doc),
            final(self).same_session(*old(self)),
    {
        if depth >= self.sec_num.len() {
            return;
        }
        let lvl = self.level_of(doc, depth);
        let cur = self.sec_num[depth];
        let len = lvl.len();
        proof {
            assert(picks(*doc, self.sec_num@, depth as int));
        }
        match next_index(doc, lvl, cur + 1) {
            None => {},
            Some(j) => {
                proof {
                    lemma_next_selectable(*doc, lvl@, cur + 1);
                    lemma_extend(*doc, self.sec_num@, depth as int, j);
                }
                self.sec_num.truncate(depth);
                self.sec_num.push(j);
                self.sec_length.truncate(depth);
                self.sec_length.push(len);
            },
        }
    }

    /// Moves to the previous selectable key at `depth`, dropping the deeper
    /// levels. At the first selectable key, or at a depth that is not open,
    /// nothing changes.
    pub fn retreat(&mut self, doc: &ConfigDocument, depth: usize)
        requires
            doc.wf(),
            old(self).consistent(*doc),
        ensures
            final(self).sec_num@ == retreat_nums(*doc, old(self).sec_num@, depth as int),
            final(self).consistent(*doc),
            final(self).same_session(*old(self)),
    {
        if depth >= self.sec_num.len() {
            return;
        }
        let lvl = self.level_of(doc, depth);
        let cur = self.sec_num[depth];
        proof {
            assert(picks(*doc, self.sec_num@, depth as int));
        }
        match prev_index(doc, lvl, cur) {
            None => {},
            Some(j) => {
                let len = lvl.len();
                proof {
                    lemma_prev_selectable(*doc, lvl@, cur - 1);
                    lemma_extend(*doc, self.sec_num@, depth as int, j);
                }
                self.sec_num.truncate(depth);
                self.sec_num.push(j);
                self.sec_length.truncate(depth);
                self.sec_length.push(len);
            },
        }
    }

    /// Opens the value of the key selected at `depth` as a new level below it,
    /// on its first selectable key, dropping any deeper levels. Fails with
    /// `NotNavigable`, leaving the position as it was, when `depth` is not
    /// open or the value has no selectable key.
    pub fn enter(&mut self, doc: &ConfigDocument, depth: usize) -> (r: Result<(), PositionError>)
        requires
            doc.wf(),
            old(self).consistent(*doc),
        ensures
            r is Ok <==> depth < old(self).sec_num.len() && next_selectable(
                *doc,
                level_at(*doc, old(self).sec_num@, (depth + 1) as nat),
                0,
            ) is Some,
            r is Ok ==> final(self).sec_num@ == old(self).sec_num@.subrange(0, depth + 1).push(
                next_selectable(
                    *doc,
                    level_at(*doc, old(self).sec_num@, (depth + 1) as nat),
                    0,
                )->Some_0 as usize,
            ),
            r is Err ==> r == Err::<(), PositionError>(PositionError::NotNavigable) && *final(self) == *old(self),
            final(self).consistent(*doc),
            final(self).same_session(*old(self)),
    {
        if depth >= self.sec_num.len() {
            return Err(PositionError::NotNavigable);
        }
        let lvl = self.level_of(doc, depth + 1);
        match next_index(doc, lvl, 0) {
            None => Err(PositionError::NotNavigable),
            Some(j) => {
                let len = lvl.len();
                proof {
                    lemma_next_selectable(*doc, lvl@, 0);
                    lemma_extend(*doc, self.sec_num@, depth + 1, j);
                }
                self.sec_num.truncate(depth + 1);
                self.sec_num.push(j);
                self.sec_length.truncate(depth + 1);
                self.sec_length.push(len);
                Ok(())
            },
        }
    }

    /// Closes the levels from `depth` down, returning to the level above it.
    /// Nothing changes at depth 0 or at a depth that is not open.
    pub fn exit(&mut self, doc: &ConfigDocument, depth: usize)
        requires
            doc.wf(),
            old(self).consistent(*doc),
        ensures
            depth == 0 || depth >= old(self).sec_num.len() ==> *final(self) == *old(self),
            0 < depth < old(self).sec_num.len() ==> final(self).sec_num@ == old(self).sec_num@.subrange(0, depth as int),
            final(self).consistent(*doc),
            final(self).same_session(*old(self)),
    {
        if depth == 0 || depth >= self.sec_num.len() {
            return;
        }
        proof {
            lemma_truncate(*doc, self.sec_num@, depth as int);
        }
        self.sec_num.truncate(depth);
        self.sec_length.truncate(depth);
    }
}

} // verus!
