//! The shared to-do list: its items, its four operations and the laws they obey.
use vstd::prelude::*;

verus! {

/// One to-do item as the service stores and renders it. The identifier is
/// the 128-bit value of a UUID.
pub struct TodoItem {
    pub id: u128,
    pub title: String,
    pub completed: bool,
}

/// What a to-do item holds, as plain values.
pub struct TodoEntry {
    pub id: u128,
    pub title: Seq<char>,
    pub completed: bool,
}

impl View for TodoItem {
    type V = TodoEntry;

    open spec fn view(&self) -> TodoEntry {
        TodoEntry { id: self.id, title: self.title@, completed: self.completed }
    }
}

/// The entries that a sequence of items holds, in the same order.
pub open spec fn entries(v: Seq<TodoItem>) -> Seq<TodoEntry> {
    v.map_values(|t: TodoItem| t@)
}

/// Some entry of `s` carries the identifier `id`.
pub open spec fn has_id(s: Seq<TodoEntry>, id: int) -> bool {
    exists|i: int| 0 <= i < s.len() && s[i].id as int == id
}

/// No two entries of `s` share an identifier.
pub open spec fn ids_unique(s: Seq<TodoEntry>) -> bool {
    forall|i: int, j: int| 0 <= i < s.len() && 0 <= j < s.len() && i != j ==> s[i].id != s[j].id
}

/// The smallest integer from `k` up to `s.len()` that no entry of `s` uses.
pub open spec fn least_unused_from(s: Seq<TodoEntry>, k: int) -> int
    decreases s.len() + 1 - k,
{
    if k < 0 || k > s.len() {
        k
    } else if !has_id(s, k) {
        k
    } else {
        least_unused_from(s, k + 1)
    }
}

/// The identifier that a new item gets: the drawn `candidate` where no entry
/// uses it yet, else the smallest unused non-negative value.
pub open spec fn fresh_id(s: Seq<TodoEntry>, candidate: u128) -> u128 {
    if !has_id(s, candidate as int) {
        candidate
    } else {
        least_unused_from(s, 0) as u128
    }
}

/// `s` with a new, open entry titled `title` appended.
pub open spec fn added(s: Seq<TodoEntry>, title: Seq<char>, candidate: u128) -> Seq<TodoEntry> {
    s.push(TodoEntry { id: fresh_id(s, candidate), title, completed: false })
}

/// `e` with its completion flag inverted.
pub open spec fn flipped(e: TodoEntry) -> TodoEntry {
    TodoEntry { completed: !e.completed, ..e }
}

/// `s` with the completion flag of each entry carrying `id` inverted.
pub open spec fn toggled(s: Seq<TodoEntry>, id: u128) -> Seq<TodoEntry> {
    s.map_values(|e: TodoEntry| if e.id == id { flipped(e) } else { e })
}

/// Whether an entry survives the deletion of `id`.
pub open spec fn keeps(id: u128) -> spec_fn(TodoEntry) -> bool {
    |e: TodoEntry| e.id != id
}

/// `s` without the entries that carry `id`.
pub open spec fn deleted(s: Seq<TodoEntry>, id: u128) -> Seq<TodoEntry> {
    s.filter(keeps(id))
}

/// Among `0 ..= s.len()` some value is used by no entry: `s` has too few
/// entries to use them all.
proof fn lemma_unused_exists(s: Seq<TodoEntry>)
    ensures
        exists|k: int| 0 <= k <= s.len() && !has_id(s, k),
{
    if forall|k: int| 0 <= k <= s.len() ==> has_id(s, k) {
        let ids = s.map_values(|e: TodoEntry| e.id as int);
        let range = vstd::set_lib::set_int_range(0, s.len() as int + 1);
        assert(range.subset_of(ids.to_set())) by {
            assert forall|k: int| range.contains(k) implies ids.to_set().contains(k) by {
                assert(has_id(s, k));
                let i = choose|i: int| 0 <= i < s.len() && s[i].id as int == k;
                assert(ids[i] == k);
            }
        }
        vstd::seq_lib::seq_to_set_is_finite(ids);
        ids.lemma_cardinality_of_set();
        vstd::set_lib::lemma_int_range(0, s.len() as int + 1);
        vstd::set_lib::lemma_len_subset(range, ids.to_set());
    }
}

/// Where an unused value lies between `k` and `s.len()`, the search from `k`
/// stops at an unused value in that range.
proof fn lemma_least_unused(s: Seq<TodoEntry>, k: int)
    requires
        0 <= k <= s.len(),
        exists|u: int| k <= u <= s.len() && !has_id(s, u),
    ensures
        k <= least_unused_from(s, k) <= s.len(),
        !has_id(s, least_unused_from(s, k)),
    decreases s.len() + 1 - k,
{
    if has_id(s, k) {
        let u = choose|u: int| k <= u <= s.len() && !has_id(s, u);
        assert(u != k);
        lemma_least_unused(s, k + 1);
    }
}

/// The identifier that an addition picks is used by no entry yet.
proof fn lemma_fresh_unused(s: Seq<TodoEntry>, candidate: u128)
    requires
        s.len() <= usize::MAX,
    ensures
        !has_id(s, fresh_id(s, candidate) as int),
{
    if has_id(s, candidate as int) {
        lemma_unused_exists(s);
        lemma_least_unused(s, 0);
    }
}

/// Every entry passes the filter of an identifier that no entry carries.
proof fn lemma_delete_absent(s: Seq<TodoEntry>, id: u128)
    requires
        !has_id(s, id as int),
    ensures
        deleted(s, id) == s,
    decreases s.len(),
{
    reveal(Seq::filter);
    if s.len() > 0 {
        let d = s.drop_last();
        assert(!has_id(d, id as int)) by {
            if has_id(d, id as int) {
                let i = choose|i: int| 0 <= i < d.len() && d[i].id as int == id as int;
                assert(s[i] == d[i]);
            }
        }
        lemma_delete_absent(d, id);
        assert(s.last().id != id) by {
            if s.last().id == id {
                assert(s[s.len() - 1].id as int == id as int);
            }
        }
        assert(d.push(s.last()) =~= s);
    }
}

/// With unique identifiers, deleting the identifier of entry `k` removes that
/// entry and nothing else.
proof fn lemma_delete_present(s: Seq<TodoEntry>, id: u128, k: int)
    requires
        ids_unique(s),
        0 <= k < s.len(),
        s[k].id == id,
    ensures
        deleted(s, id) == s.remove(k),
    decreases s.len(),
{
    reveal(Seq::filter);
    let d = s.drop_last();
    if k == s.len() - 1 {
        assert(!has_id(d, id as int)) by {
            if has_id(d, id as int) {
                let i = choose|i: int| 0 <= i < d.len() && d[i].id as int == id as int;
                assert(s[i].id == s[k].id);
            }
        }
        lemma_delete_absent(d, id);
        assert(s.remove(k) =~= d);
    } else {
        assert(ids_unique(d)) by {
            assert forall|i: int, j: int| 0 <= i < d.len() && 0 <= j < d.len() && i != j
                implies d[i].id != d[j].id by {
                assert(s[i] == d[i] && s[j] == d[j]);
            }
        }
        assert(d[k] == s[k]);
        lemma_delete_present(d, id, k);
        assert(s.last().id != id) by {
            assert(s[s.len() - 1].id != s[k].id);
        }
        assert(d.remove(k).push(s.last()) =~= s.remove(k));
    }
}

/// One mutation of the list, as a request hands it over. An addition
/// carries the identifier drawn for it.
pub enum TodoCommand {
    Add { title: String, candidate: u128 },
    Toggle { id: u128 },
    Delete { id: u128 },
}

/// The list after one command.
pub open spec fn step(s: Seq<TodoEntry>, c: TodoCommand) -> Seq<TodoEntry> {
    match c {
        TodoCommand::Add { title, candidate } => added(s, title@, candidate),
        TodoCommand::Toggle { id } => toggled(s, id),
        TodoCommand::Delete { id } => deleted(s, id),
    }
}

/// The list after each command of `cmds` in turn, from the empty list.
pub open spec fn run(cmds: Seq<TodoCommand>) -> Seq<TodoEntry>
    decreases cmds.len(),
{
    if cmds.len() == 0 {
        Seq::empty()
    } else {
        step(run(cmds.drop_last()), cmds.last())
    }
}

/// Appending an entry under an unused identifier keeps identifiers unique.
proof fn lemma_add_unique(s: Seq<TodoEntry>, title: Seq<char>, candidate: u128)
    requires
        ids_unique(s),
        !has_id(s, fresh_id(s, candidate) as int),
    ensures
        ids_unique(added(s, title, candidate)),
{
    let t = added(s, title, candidate);
    assert forall|i: int, j: int| 0 <= i < t.len() && 0 <= j < t.len() && i != j
        implies t[i].id != t[j].id by {
        if i == s.len() {
            assert(t[j] == s[j]);
        } else if j == s.len() {
            assert(t[i] == s[i]);
        } else {
            assert(t[i] == s[i] && t[j] == s[j]);
        }
    }
}

/// Flipping completion flags leaves every identifier in place.
proof fn lemma_toggle_unique(s: Seq<TodoEntry>, id: u128)
    requires
        ids_unique(s),
    ensures
        ids_unique(toggled(s, id)),
        toggled(s, id).len() == s.len(),
{
    let t = toggled(s, id);
    assert forall|i: int, j: int| 0 <= i < t.len() && 0 <= j < t.len() && i != j
        implies t[i].id != t[j].id by {
        assert(t[i].id == s[i].id && t[j].id == s[j].id);
    }
}

/// Deleting keeps identifiers unique and never lengthens the list.
proof fn lemma_delete_unique(s: Seq<TodoEntry>, id: u128)
    requires
        ids_unique(s),
    ensures
        ids_unique(deleted(s, id)),
        deleted(s, id).len() <= s.len(),
{
    if has_id(s, id as int) {
        let k = choose|k: int| 0 <= k < s.len() && s[k].id as int == id as int;
        lemma_delete_present(s, id, k);
        let t = s.remove(k);
        assert forall|i: int, j: int| 0 <= i < t.len() && 0 <= j < t.len() && i != j
            implies t[i].id != t[j].id by {
            let si = if i < k { i } else { i + 1 };
            let sj = if j < k { j } else { j + 1 };
            assert(t[i] == s[si] && t[j] == s[sj]);
        }
    } else {
        lemma_delete_absent(s, id);
    }
}

/// A command keeps identifiers unique and adds at most one entry.
proof fn lemma_step(s: Seq<TodoEntry>, c: TodoCommand)
    requires
        ids_unique(s),
        s.len() <= usize::MAX,
    ensures
        ids_unique(step(s, c)),
        step(s, c).len() <= s.len() + 1,
{
    match c {
        TodoCommand::Add { title, candidate } => {
            lemma_fresh_unused(s, candidate);
            lemma_add_unique(s, title@, candidate);
        },
        TodoCommand::Toggle { id } => {
            lemma_toggle_unique(s, id);
        },
        TodoCommand::Delete { id } => {
            lemma_delete_unique(s, id);
        },
    }
}

/// Relies on uuid's `Uuid::new_v4`: a random UUID with version 4 and the
/// RFC 4122 variant, read as its 128-bit big-endian value by `as_u128`.
#[verifier::external_body]
fn random_id() -> (r: u128)
    ensures
        (r >> 76u128) & 0xfu128 == 4,
        (r >> 62u128) & 3u128 == 2,
{
    uuid::Uuid::new_v4().as_u128()
}

/// The shared to-do list, in insertion order, with unique identifiers.
pub struct TodoList {
    items: Vec<TodoItem>,
}

impl View for TodoList {
    type V = Seq<TodoEntry>;

    closed spec fn view(&self) -> Seq<TodoEntry> {
        entries(self.items@)
    }
}

impl TodoList {
    /// The list's invariant: no two items share an identifier.
    pub open spec fn wf(&self) -> bool {
        ids_unique(self@)
    }

    /// An empty list.
    pub fn new() -> (r: TodoList)
        ensures
            r@ == Seq::<TodoEntry>::empty(),
            r.wf(),
    {
        let r = TodoList { items: Vec::new() };
        assert(r@ =~= Seq::<TodoEntry>::empty());
        r
    }

    /// Number of items.
    pub fn len(&self) -> (r: usize)
        ensures
            r == self@.len(),
    {
        self.items.len()
    }

    /// A copy of the current items, in insertion order.
    pub fn list(&self) -> (r: Vec<TodoItem>)
        ensures
            entries(r@) == self@,
    {
        let mut r: Vec<TodoItem> = Vec::new();
        let mut i: usize = 0;
        while i < self.items.len()
            invariant
                i <= self.items@.len(),
                r@.len() == i,
                entries(r@) =~= self@.subrange(0, i as int),
            decreases self.items@.len() - i,
        {
            let t = &self.items[i];
            let c = TodoItem { id: t.id, title: t.title.clone(), completed: t.completed };
            assert(c@ == self@[i as int]);
            let ghost prev = r@;
            r.push(c);
            proof {
                assert forall|j: int| 0 <= j <= i implies entries(r@)[j] == self@[j] by {
                    if j < i {
                        assert(r@[j] == prev[j]);
                        assert(entries(prev)[j] == self@.subrange(0, i as int)[j]);
                    }
                }
            }
            i = i + 1;
            assert(entries(r@) =~= self@.subrange(0, i as int));
        }
        assert(self@.subrange(0, i as int) =~= self@);
        r
    }

    /// Where the item carrying `id` stands, if any.
    pub fn position(&self, id: u128) -> (r: Option<usize>)
        ensures
            match r {
                Some(k) => k < self@.len() && self@[k as int].id == id,
                None => !has_id(self@, id as int),
            },
    {
        let mut i: usize = 0;
        while i < self.items.len()
            invariant
                i <= self.items@.len(),
                forall|j: int| 0 <= j < i ==> self@[j].id != id,
            decreases self.items@.len() - i,
        {
            if self.items[i].id == id {
                return Some(i);
            }
            i = i + 1;
        }
        None
    }

    /// The smallest non-negative value that no item uses.
    fn least_unused(&self) -> (r: u128)
        ensures
            r as int == least_unused_from(self@, 0),
            !has_id(self@, r as int),
    {
        let n = self.items.len();
        proof {
            lemma_unused_exists(self@);
        }
        let mut k: u128 = 0;
        loop
            invariant
                n == self@.len(),
                0 <= k <= n,
                least_unused_from(self@, 0) == least_unused_from(self@, k as int),
                forall|j: int| 0 <= j < k ==> has_id(self@, j),
                exists|u: int| 0 <= u <= self@.len() && !has_id(self@, u),
            decreases n - k,
        {
            match self.position(k) {
                None => {
                    return k;
                },
                Some(_) => {
                    proof {
                        let u = choose|u: int| 0 <= u <= self@.len() && !has_id(self@, u);
                        assert(has_id(self@, k as int));
                        assert(u > k);
                    }
                    k = k + 1;
                },
            }
        }
    }

    /// The identifier that an addition with the drawn `candidate` gets.
    pub fn fresh_id(&self, candidate: u128) -> (r: u128)
        ensures
            r == fresh_id(self@, candidate),
            !has_id(self@, r as int),
    {
        match self.position(candidate) {
            None => candidate,
            Some(_) => self.least_unused(),
        }
    }

    /// Appends an open item titled `title`, identified by the drawn
    /// `candidate` unless an item already uses it, and returns it.
    pub fn add_with_candidate(&mut self, title: String, candidate: u128) -> (r: TodoItem)
        requires
            old(self).wf(),
        ensures
            final(self).wf(),
            final(self)@ == added(old(self)@, title@, candidate),
            r@ == final(self)@.last(),
            !has_id(old(self)@, r.id as int),
    {
        let id = self.fresh_id(candidate);
        let item = TodoItem { id, title: title.clone(), completed: false };
        self.items.push(TodoItem { id, title, completed: false });
        proof {
            assert(self@ =~= added(old(self)@, item.title@, candidate));
            lemma_add_unique(old(self)@, item.title@, candidate);
        }
        item
    }

    /// Appends an open item titled `title` under a freshly drawn random
    /// identifier that no item uses yet, and returns it.
    pub fn add(&mut self, title: String) -> (r: TodoItem)
        requires
            old(self).wf(),
        ensures
            final(self).wf(),
            final(self)@ == old(self)@.push(r@),
            r.title@ == title@,
            !r.completed,
            !has_id(old(self)@, r.id as int),
    {
        let candidate = random_id();
        self.add_with_candidate(title, candidate)
    }

    /// Inverts the completion flag of the item carrying `id`; tells whether
    /// there was one. An unknown identifier changes nothing.
    pub fn toggle(&mut self, id: u128) -> (r: bool)
        requires
            old(self).wf(),
        ensures
            final(self).wf(),
            final(self)@ == toggled(old(self)@, id),
            r == has_id(old(self)@, id as int),
    {
        match self.position(id) {
            None => {
                assert(self@ =~= toggled(self@, id));
                false
            },
            Some(k) => {
                self.items[k].completed = !self.items[k].completed;
                proof {
                    assert(self@ =~= toggled(old(self)@, id)) by {
                        assert forall|j: int| 0 <= j < self@.len() implies self@[j]
                            == toggled(old(self)@, id)[j] by {
                            if j != k {
                                assert(old(self)@[j].id != old(self)@[k as int].id);
                            }
                        }
                    }
                    lemma_toggle_unique(old(self)@, id);
                }
                true
            },
        }
    }

    /// Removes the items carrying `id` (at most one); tells whether there
    /// was one. An unknown identifier changes nothing.
    pub fn delete(&mut self, id: u128) -> (r: bool)
        requires
            old(self).wf(),
        ensures
            final(self).wf(),
            final(self)@ == deleted(old(self)@, id),
            r == has_id(old(self)@, id as int),
    {
        match self.position(id) {
            None => {
                proof {
                    lemma_delete_absent(self@, id);
                }
                false
            },
            Some(k) => {
                self.items.remove(k);
                proof {
                    lemma_delete_present(old(self)@, id, k as int);
                    assert(self@ =~= old(self)@.remove(k as int));
                    lemma_delete_unique(old(self)@, id);
                }
                true
            },
        }
    }

    /// Performs one command.
    pub fn apply(&mut self, cmd: &TodoCommand)
        requires
            old(self).wf(),
        ensures
            final(self).wf(),
            final(self)@ == step(old(self)@, *cmd),
    {
        match cmd {
            TodoCommand::Add { title, candidate } => {
                self.add_with_candidate(title.clone(), *candidate);
            },
            TodoCommand::Toggle { id } => {
                self.toggle(*id);
            },
            TodoCommand::Delete { id } => {
                self.delete(*id);
            },
        }
    }

    /// The list that the commands build from an empty one, in their order.
    pub fn replay(cmds: &Vec<TodoCommand>) -> (r: TodoList)
        ensures
            r.wf(),
            r@ == run(cmds@),
    {
        let mut r = TodoList::new();
        let mut i: usize = 0;
        assert(cmds@.subrange(0, 0) =~= Seq::<TodoCommand>::empty());
        while i < cmds.len()
            invariant
                i <= cmds@.len(),
                r.wf(),
                r@ == run(cmds@.subrange(0, i as int)),
            decreases cmds@.len() - i,
        {
            r.apply(&cmds[i]);
            assert(cmds@.subrange(0, i as int + 1).drop_last() =~= cmds@.subrange(0, i as int));
            i = i + 1;
        }
        assert(cmds@.subrange(0, i as int) =~= cmds@);
        r
    }
}

/// Whether an entry bears the title `title`.
pub open spec fn titled(title: Seq<char>) -> spec_fn(TodoEntry) -> bool {
    |e: TodoEntry| e.title == title
}

/// Commands take effect one at a time, in order: the list after a further
/// command is that command applied to the list before it.
pub proof fn law_commands_apply_in_order(cmds: Seq<TodoCommand>, c: TodoCommand)
    ensures
        run(cmds.push(c)) == step(run(cmds), c),
{
    assert(cmds.push(c).drop_last() =~= cmds);
}

/// Whatever commands are applied, in whatever order, identifiers stay unique
/// and each command adds at most one item.
pub proof fn law_history_well_formed(cmds: Seq<TodoCommand>)
    requires
        cmds.len() <= usize::MAX,
    ensures
        ids_unique(run(cmds)),
        run(cmds).len() <= cmds.len(),
    decreases cmds.len(),
{
    if cmds.len() > 0 {
        law_history_well_formed(cmds.drop_last());
        lemma_step(run(cmds.drop_last()), cmds.last());
    }
}

/// An addition appends exactly one open item with the given title, under an
/// identifier that no earlier item carries; the number of items with that
/// title grows by one.
pub proof fn law_add_appends_fresh(s: Seq<TodoEntry>, title: Seq<char>, candidate: u128)
    requires
        ids_unique(s),
        s.len() <= usize::MAX,
    ensures
        added(s, title, candidate).len() == s.len() + 1,
        added(s, title, candidate).drop_last() == s,
        added(s, title, candidate).last() == (TodoEntry {
            id: fresh_id(s, candidate),
            title,
            completed: false,
        }),
        !has_id(s, fresh_id(s, candidate) as int),
        ids_unique(added(s, title, candidate)),
        added(s, title, candidate).filter(titled(title)).len() == s.filter(titled(title)).len()
            + 1,
{
    let t = added(s, title, candidate);
    lemma_fresh_unused(s, candidate);
    lemma_add_unique(s, title, candidate);
    assert(t.drop_last() =~= s);
    s.lemma_filter_len_push(titled(title), t.last());
}

/// Toggling an item twice restores it; once, it inverts the flag of exactly
/// the item carrying the identifier.
pub proof fn law_toggle_twice_restores(s: Seq<TodoEntry>, id: u128)
    ensures
        toggled(toggled(s, id), id) == s,
        forall|k: int|
            #![trigger s[k]]
            0 <= k < s.len() && s[k].id == id && ids_unique(s) ==> toggled(s, id) == s.update(
                k,
                flipped(s[k]),
            ),
{
    assert(toggled(toggled(s, id), id) =~= s);
    assert forall|k: int|
        #![trigger s[k]]
        0 <= k < s.len() && s[k].id == id && ids_unique(s) implies toggled(s, id) == s.update(
            k,
            flipped(s[k]),
        ) by {
        assert forall|j: int| 0 <= j < s.len() implies toggled(s, id)[j] == s.update(
            k,
            flipped(s[k]),
        )[j] by {
            if j != k {
                assert(s[j].id != s[k].id);
            }
        }
        assert(toggled(s, id) =~= s.update(k, flipped(s[k])));
    }
}

/// Toggling or deleting an identifier that no item carries changes nothing.
pub proof fn law_unknown_id_changes_nothing(s: Seq<TodoEntry>, id: u128)
    requires
        !has_id(s, id as int),
    ensures
        toggled(s, id) == s,
        deleted(s, id) == s,
{
    assert forall|j: int| 0 <= j < s.len() implies toggled(s, id)[j] == s[j] by {
        assert(s[j].id != id);
    }
    assert(toggled(s, id) =~= s);
    lemma_delete_absent(s, id);
}

/// Deleting the identifier of an item removes exactly that item: the list is
/// one shorter and no longer carries the identifier.
pub proof fn law_delete_removes_one(s: Seq<TodoEntry>, id: u128, k: int)
    requires
        ids_unique(s),
        0 <= k < s.len(),
        s[k].id == id,
    ensures
        deleted(s, id) == s.remove(k),
        deleted(s, id).len() == s.len() - 1,
        !has_id(deleted(s, id), id as int),
{
    lemma_delete_present(s, id, k);
    let t = s.remove(k);
    if has_id(t, id as int) {
        let i = choose|i: int| 0 <= i < t.len() && t[i].id as int == id as int;
        let si = if i < k { i } else { i + 1 };
        assert(t[i] == s[si]);
    }
}

/// However many additions run, and in whatever order, each adds one item and
/// all identifiers differ.
pub proof fn law_additions_all_distinct(cmds: Seq<TodoCommand>)
    requires
        cmds.len() <= usize::MAX,
        forall|i: int| 0 <= i < cmds.len() ==> (#[trigger] cmds[i]) is Add,
    ensures
        run(cmds).len() == cmds.len(),
        ids_unique(run(cmds)),
    decreases cmds.len(),
{
    if cmds.len() > 0 {
        let d = cmds.drop_last();
        assert forall|i: int| 0 <= i < d.len() implies (#[trigger] d[i]) is Add by {
            assert(d[i] == cmds[i]);
        }
        law_additions_all_distinct(d);
        assert(cmds[cmds.len() - 1] is Add);
        lemma_step(run(d), cmds.last());
    }
}

} // verus!
