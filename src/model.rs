use crate::frequency_table::FrequencyTable;
use crate::text::{same_chars, to_upper, upper, upper_char};
use vstd::prelude::*;

verus! {

/// Pads the context before the first character of a name.
pub const START: char = '^';

/// The outcome that records that a name ends in a context.
pub const END: char = '$';

/// `k` start sentinels followed by the characters of `name`.
pub open spec fn padded(k: nat, name: Seq<char>) -> Seq<char> {
    Seq::new(k, |i: int| START) + name
}

/// The context in force before the `i`-th transition of `name`: the `k`
/// characters that precede position `i`, padded with start sentinels.
pub open spec fn window(k: nat, name: Seq<char>, i: int) -> Seq<char> {
    padded(k, name).subrange(i, i + k)
}

/// The outcome of the `i`-th transition of `name`: its `i`-th character, or
/// the end marker after the last one.
pub open spec fn outcome(name: Seq<char>, i: int) -> char {
    if i < name.len() {
        name[i]
    } else {
        END
    }
}

/// How many of the first `n` transitions of `name` go from `ctx` to `ch`.
pub open spec fn transitions(k: nat, name: Seq<char>, ctx: Seq<char>, ch: char, n: nat) -> nat
    decreases n,
{
    if n == 0 {
        0
    } else {
        transitions(k, name, ctx, ch, (n - 1) as nat) + if window(k, name, n - 1) == ctx
            && outcome(name, n - 1) == ch {
            1nat
        } else {
            0nat
        }
    }
}

/// `after` is `before` trained on `name`: a name already seen in uppercase
/// changes nothing; otherwise each transition of the uppercase name adds one
/// to its table, and the name joins those seen.
pub open spec fn trained(before: Data, after: Data, name: Seq<char>) -> bool {
    let u = upper(name);
    let k = before.context_length as nat;
    &&& after.context_length == before.context_length
    &&& before.seen().contains(u) ==> after == before
    &&& !before.seen().contains(u) ==> {
        &&& after.seen() == before.seen().push(u)
        &&& forall|c: Seq<char>, x: char|
            #[trigger] after.table_count(c, x) == before.table_count(c, x) + transitions(
                k,
                u,
                c,
                x,
                name.len() + 1,
            )
        &&& forall|c: Seq<char>|
            #[trigger] after.has_table(c) == (before.has_table(c) || exists|i: int|
                0 <= i <= name.len() && window(k, u, i) == c)
    }
}

/// A character-level Markov model of names: for each context of
/// `context_length` characters, a table of the characters that followed it.
pub struct Data {
    pub context_length: usize,
    pub existing_outputs: Vec<Vec<char>>,
    pub context_keys: Vec<Vec<char>>,
    pub contexts: Vec<FrequencyTable>,
}

impl Data {
    /// The names trained on, in uppercase.
    pub open spec fn seen(&self) -> Seq<Seq<char>> {
        self.existing_outputs@.map_values(|v: Vec<char>| v@)
    }

    /// The number of tables.
    pub open spec fn n_tables(&self) -> int {
        self.contexts@.len() as int
    }

    /// Whether a table is filed under `ctx`.
    pub open spec fn has_table(&self, ctx: Seq<char>) -> bool {
        exists|j: int| 0 <= j < self.n_tables() && (#[trigger] self.context_keys@[j])@ == ctx
    }

    /// How often `ch` followed `ctx` in training.
    pub open spec fn table_count(&self, ctx: Seq<char>, ch: char) -> nat {
        if self.has_table(ctx) {
            self.contexts@[choose|j: int|
                0 <= j < self.n_tables() && (#[trigger] self.context_keys@[j])@ == ctx].count(ch)
        } else {
            0
        }
    }

    /// The initial context: `context_length` start sentinels.
    pub open spec fn start_context(&self) -> Seq<char> {
        Seq::new(self.context_length as nat, |i: int| START)
    }

    /// The tables are keyed by distinct contexts of `context_length`
    /// characters; the names seen are distinct and uppercase; and each of
    /// them can end where its last characters leave the context.
    pub open spec fn wf(&self) -> bool {
        &&& self.wf_tables()
        &&& forall|a: int, b: int|
            0 <= a < b < self.seen().len() ==> self.seen()[a] != self.seen()[b]
        &&& forall|a: int| 0 <= a < self.seen().len() ==> upper(#[trigger] self.seen()[a]) == self.seen()[a]
        &&& forall|a: int|
            0 <= a < self.seen().len() ==> self.table_count(
                window(self.context_length as nat, #[trigger] self.seen()[a], self.seen()[a].len() as int),
                END,
            ) > 0
    }

    /// The tables are well formed, none of them empty, and keyed by distinct
    /// contexts of `context_length` characters.
    pub open spec fn wf_tables(&self) -> bool {
        &&& self.wf_index()
        &&& forall|j: int| 0 <= j < self.n_tables() ==> (#[trigger] self.contexts@[j]).population > 0
    }

    /// The tables are well formed and keyed by distinct contexts of
    /// `context_length` characters.
    pub open spec fn wf_index(&self) -> bool {
        &&& self.context_length >= 1
        &&& self.context_keys@.len() == self.contexts@.len()
        &&& forall|j: int| 0 <= j < self.n_tables() ==> (#[trigger] self.context_keys@[j])@.len()
            == self.context_length
        &&& forall|a: int, b: int|
            0 <= a < b < self.n_tables() ==> self.context_keys@[a]@ != self.context_keys@[b]@
        &&& forall|j: int| 0 <= j < self.n_tables() ==> (#[trigger] self.contexts@[j]).wf()
    }

    /// Every table has room for `n` more observations.
    pub open spec fn has_room(&self, n: nat) -> bool {
        forall|j: int| 0 <= j < self.n_tables() ==> (#[trigger] self.contexts@[j]).population + n <= u32::MAX
    }

    /// An empty model over contexts of `context_length` characters.
    pub fn new(context_length: usize) -> (r: Data)
        requires
            context_length >= 1,
        ensures
            r.wf(),
            r.context_length == context_length,
            r.seen().len() == 0,
            forall|ctx: Seq<char>| !r.has_table(ctx),
    {
        let r = Data {
            context_length,
            existing_outputs: Vec::new(),
            context_keys: Vec::new(),
            contexts: Vec::new(),
        };
        proof {
            assert(r.seen().len() == 0);
        }
        r
    }

    /// The context every name starts from.
    pub fn initial_context(&self) -> (r: Vec<char>)
        ensures
            r@ == self.start_context(),
    {
        let mut r: Vec<char> = Vec::with_capacity(self.context_length);
        let mut i: usize = 0;
        while i < self.context_length
            invariant
                0 <= i <= self.context_length,
                r@ == Seq::new(i as nat, |j: int| START),
            decreases self.context_length - i,
        {
            r.push(START);
            i = i + 1;
            proof {
                assert(r@ =~= Seq::new(i as nat, |j: int| START));
            }
        }
        r
    }

    /// Where the table filed under `ctx` stands, if there is one.
    pub fn position(&self, ctx: &Vec<char>) -> (r: Option<usize>)
        requires
            self.wf_index(),
        ensures
            r matches Some(j) ==> j < self.n_tables() && self.context_keys@[j as int]@ == ctx@,
            r is None <==> !self.has_table(ctx@),
    {
        let n = self.context_keys.len();
        let mut j: usize = 0;
        while j < n
            invariant
                self.wf_index(),
                n == self.n_tables(),
                0 <= j <= n,
                forall|a: int| 0 <= a < j ==> self.context_keys@[a]@ != ctx@,
            decreases n - j,
        {
            if same_chars(&self.context_keys[j], ctx) {
                return Some(j);
            }
            j = j + 1;
        }
        None
    }

    /// The table filed under `ctx`, if there is one.
    pub fn table_for(&self, ctx: &Vec<char>) -> (r: Option<&FrequencyTable>)
        requires
            self.wf(),
        ensures
            r is None <==> !self.has_table(ctx@),
            r matches Some(t) ==> t.wf() && t.total() > 0 && forall|ch: char| t.count(ch) == self.table_count(ctx@, ch),
    {
        match self.position(ctx) {
            Some(j) => {
                proof {
                    self.lemma_table_at(j as int);
                }
                Some(&self.contexts[j])
            },
            None => None,
        }
    }

    /// Whether the uppercase name `u` has been trained on.
    fn contains_seen(&self, u: &Vec<char>) -> (r: bool)
        ensures
            r == self.seen().contains(u@),
    {
        let n = self.existing_outputs.len();
        let mut a: usize = 0;
        while a < n
            invariant
                n == self.seen().len(),
                0 <= a <= n,
                forall|b: int| 0 <= b < a ==> self.seen()[b] != u@,
            decreases n - a,
        {
            if same_chars(&self.existing_outputs[a], u) {
                proof {
                    assert(self.seen()[a as int] == u@);
                }
                return true;
            }
            a = a + 1;
        }
        false
    }

    /// Whether `name`, in uppercase, has been trained on.
    pub fn has_seen(&self, name: &str) -> (r: bool)
        ensures
            r == self.seen().contains(upper(name@)),
    {
        let u = to_upper(name);
        self.contains_seen(&u)
    }

    /// Whether every table has room for the observations that training on
    /// `name` can add.
    pub fn can_observe(&self, name: &String) -> (r: bool)
        ensures
            r == (self.has_room(name@.len() + 1) && name@.len() + 1 <= u32::MAX),
    {
        let len = name.as_str().unicode_len();
        if len >= u32::MAX as usize {
            return false;
        }
        let need = (len + 1) as u32;
        let n = self.contexts.len();
        let mut j: usize = 0;
        while j < n
            invariant
                n == self.n_tables(),
                0 <= j <= n,
                need == len + 1,
                len == name@.len(),
                forall|a: int| 0 <= a < j ==> (#[trigger] self.contexts@[a]).population + need <= u32::MAX,
            decreases n - j,
        {
            if self.contexts[j].population > u32::MAX - need {
                return false;
            }
            j = j + 1;
        }
        true
    }

    /// Trains the model on one name. The name is taken in uppercase; one
    /// already trained on changes nothing. Otherwise each of its characters
    /// is recorded after the context that precedes it, the end marker after
    /// the context its last characters leave, and the name is remembered.
    pub fn observe(&mut self, name: String)
        requires
            old(self).wf(),
            old(self).has_room(name@.len() + 1),
            name@.len() + 1 <= u32::MAX,
        ensures
            final(self).wf(),
            final(self).context_length == old(self).context_length,
            trained(*old(self), *final(self), name@),
    {
        let u = to_upper(name.as_str());
        if self.contains_seen(&u) {
            return;
        }
        let ghost before = *self;
        let ghost k = self.context_length as nat;
        let n = u.len();
        let mut ctx = self.initial_context();
        proof {
            assert(ctx@ =~= window(k, u@, 0));
        }
        let mut i: usize = 0;
        while i < n
            invariant
                self.wf_tables(),
                before.wf(),
                before.has_room((n + 1) as nat),
                n + 1 <= u32::MAX,
                n == u@.len(),
                k == self.context_length,
                self.context_length == before.context_length,
                self.existing_outputs == before.existing_outputs,
                0 <= i <= n,
                ctx@ == window(k, u@, i as int),
                self.n_tables() >= before.n_tables(),
                forall|j: int|
                    0 <= j < self.n_tables() ==> (#[trigger] self.contexts@[j]).population <= (
                    if j < before.n_tables() {
                        before.contexts@[j].population as int
                    } else {
                        0
                    }) + i,
                forall|c: Seq<char>, x: char|
                    #[trigger] self.table_count(c, x) == before.table_count(c, x) + transitions(k, u@, c, x, i as nat),
                forall|c: Seq<char>|
                    #[trigger] self.has_table(c) == (before.has_table(c) || exists|m: int|
                        0 <= m < i && window(k, u@, m) == c),
            decreases n - i,
        {
            let ch = u[i];
            proof {
                self.lemma_room(before, i as int, n as int);
            }
            let ghost prev = *self;
            self.record(&ctx, ch);
            ctx = slide(&ctx, ch);
            i = i + 1;
            proof {
                assert(ctx@ =~= window(k, u@, i as int));
                assert forall|c: Seq<char>, x: char|
                    #[trigger] self.table_count(c, x) == before.table_count(c, x) + transitions(k, u@, c, x, i as nat) by {
                    assert(prev.table_count(c, x) == before.table_count(c, x) + transitions(k, u@, c, x, (i - 1) as nat));
                }
                assert forall|c: Seq<char>|
                    #[trigger] self.has_table(c) == (before.has_table(c) || exists|m: int|
                        0 <= m < i && window(k, u@, m) == c) by {
                    assert(prev.has_table(c) == (before.has_table(c) || exists|m: int|
                        0 <= m < i - 1 && window(k, u@, m) == c));
                    if window(k, u@, i - 1) == c {
                        assert(exists|m: int| 0 <= m < i && window(k, u@, m) == c);
                    }
                }
            }
        }
        proof {
            self.lemma_room(before, n as int, n as int);
        }
        let ghost prev = *self;
        self.record(&ctx, END);
        proof {
            assert forall|c: Seq<char>, x: char|
                #[trigger] self.table_count(c, x) == before.table_count(c, x) + transitions(k, u@, c, x, (n + 1) as nat) by {
                assert(prev.table_count(c, x) == before.table_count(c, x) + transitions(k, u@, c, x, n as nat));
            }
            assert forall|c: Seq<char>|
                #[trigger] self.has_table(c) == (before.has_table(c) || exists|m: int|
                    0 <= m <= n && window(k, u@, m) == c) by {
                assert(prev.has_table(c) == (before.has_table(c) || exists|m: int|
                    0 <= m < n && window(k, u@, m) == c));
                if window(k, u@, n as int) == c {
                    assert(exists|m: int| 0 <= m <= n && window(k, u@, m) == c);
                }
            }
        }
        let ghost tables_done = *self;
        self.existing_outputs.push(u);
        proof {
            assert(self.seen() =~= before.seen().push(u@));
            lemma_upper_idempotent(name@);
            assert forall|c: Seq<char>, x: char|
                #[trigger] self.table_count(c, x) == tables_done.table_count(c, x) by {
                self.lemma_same_tables(tables_done, c, x);
            }
            assert forall|a: int| 0 <= a < self.seen().len() implies self.table_count(
                window(k, #[trigger] self.seen()[a], self.seen()[a].len() as int),
                END,
            ) > 0 by {
                if a < before.seen().len() {
                    assert(self.seen()[a] == before.seen()[a]);
                } else {
                    assert(self.seen()[a] == u@);
                }
            }
            assert forall|c: Seq<char>| #[trigger] self.has_table(c) == tables_done.has_table(c) by {
                self.lemma_same_tables(tables_done, c, END);
            }
        }
    }

    /// Two models with the same tables agree on every lookup.
    proof fn lemma_same_tables(&self, other: Data, c: Seq<char>, x: char)
        requires
            self.context_keys == other.context_keys,
            self.contexts == other.contexts,
        ensures
            self.has_table(c) == other.has_table(c),
            self.table_count(c, x) == other.table_count(c, x),
    {
    }

    /// While `i` of `n` characters have been recorded, every table has room
    /// for one more observation.
    proof fn lemma_room(&self, before: Data, i: int, n: int)
        requires
            before.has_room((n + 1) as nat),
            n + 1 <= u32::MAX,
            0 <= i <= n,
            self.n_tables() >= before.n_tables(),
            forall|j: int|
                0 <= j < self.n_tables() ==> (#[trigger] self.contexts@[j]).population <= (if j
                    < before.n_tables() {
                    before.contexts@[j].population as int
                } else {
                    0
                }) + i,
        ensures
            self.has_room(1),
    {
        assert forall|j: int| 0 <= j < self.n_tables() implies (#[trigger] self.contexts@[j]).population + 1 <= u32::MAX by {
            if j < before.n_tables() {
                assert(before.contexts@[j].population + n + 1 <= u32::MAX);
            }
        }
    }

    /// Records one observation of `ch` after `ctx`, creating the table for
    /// `ctx` if there is none.
    fn record(&mut self, ctx: &Vec<char>, ch: char)
        requires
            old(self).wf_tables(),
            old(self).has_room(1),
            ctx@.len() == old(self).context_length,
        ensures
            final(self).wf_tables(),
            final(self).context_length == old(self).context_length,
            final(self).existing_outputs == old(self).existing_outputs,
            final(self).n_tables() >= old(self).n_tables(),
            forall|j: int|
                0 <= j < final(self).n_tables() ==> (#[trigger] final(self).contexts@[j]).population <= (
                if j < old(self).n_tables() {
                    old(self).contexts@[j].population as int
                } else {
                    0
                }) + 1,
            forall|c: Seq<char>| #[trigger] final(self).has_table(c) == (old(self).has_table(c) || c == ctx@),
            forall|c: Seq<char>, x: char|
                #[trigger] final(self).table_count(c, x) == old(self).table_count(c, x) + if c == ctx@ && x
                    == ch {
                    1nat
                } else {
                    0nat
                },
    {
        let ghost before = *self;
        let j = match self.position(ctx) {
            Some(j) => j,
            None => {
                self.context_keys.push(ctx.clone());
                let fresh = FrequencyTable::new();
                self.contexts.push(fresh);
                proof {
                    assert(self.contexts@.last() == fresh);
                    assert(self.context_keys@.last()@ == ctx@);
                    assert(forall|a: int| 0 <= a < before.n_tables() ==> self.context_keys@[a] == before.context_keys@[a]);
                    assert(forall|a: int| 0 <= a < before.n_tables() ==> self.contexts@[a] == before.contexts@[a]);
                }
                self.contexts.len() - 1
            },
        };
        let ghost mid = *self;
        proof {
            assert(mid.wf_index());
            assert(mid.context_keys@[j as int]@ == ctx@);
            assert(before.has_table(ctx@) ==> mid == before);
            assert(!before.has_table(ctx@) ==> j == before.n_tables() && forall|x: char| mid.contexts@[j as int].count(x) == 0);
        }
        let mut t = self.contexts.remove(j);
        t.observe(ch);
        self.contexts.insert(j, t);
        proof {
            assert(self.contexts@ == mid.contexts@.update(j as int, t));
            assert(self.wf_tables());
            self.lemma_table_at(j as int);
            mid.lemma_table_at(j as int);
            assert forall|c: Seq<char>| #[trigger] self.has_table(c) == (before.has_table(c) || c == ctx@) by {
                if before.has_table(c) {
                    let w = choose|i: int| 0 <= i < before.n_tables() && (#[trigger] before.context_keys@[i])@ == c;
                    assert(self.context_keys@[w] == before.context_keys@[w]);
                }
                if self.has_table(c) && c != ctx@ {
                    let w = choose|i: int| 0 <= i < self.n_tables() && (#[trigger] self.context_keys@[i])@ == c;
                    assert(w < before.n_tables());
                    assert(self.context_keys@[w] == before.context_keys@[w]);
                }
            }
            assert forall|c: Seq<char>, x: char|
                #[trigger] self.table_count(c, x) == before.table_count(c, x) + if c == ctx@ && x == ch {
                    1nat
                } else {
                    0nat
                } by {
                if c != ctx@ && before.has_table(c) {
                    let w = choose|i: int| 0 <= i < before.n_tables() && (#[trigger] before.context_keys@[i])@ == c;
                    assert(self.context_keys@[w] == before.context_keys@[w]);
                    assert(w != j);
                    self.lemma_table_at(w);
                    before.lemma_table_at(w);
                    assert(self.contexts@[w] == before.contexts@[w]);
                }

            }
        }
    }

    /// The table at `j` is the one that `table_count` reads for its key.
    proof fn lemma_table_at(&self, j: int)
        requires
            self.wf_index(),
            0 <= j < self.n_tables(),
        ensures
            self.has_table(self.context_keys@[j]@),
            forall|ch: char| self.table_count(self.context_keys@[j]@, ch) == #[trigger] self.contexts@[j].count(ch),
    {
        let ctx = self.context_keys@[j]@;
        assert(self.has_table(ctx));
        let c = choose|i: int| 0 <= i < self.n_tables() && (#[trigger] self.context_keys@[i])@ == ctx;
        if c != j {
            if c < j {
                assert(self.context_keys@[c]@ != self.context_keys@[j]@);
            } else {
                assert(self.context_keys@[j]@ != self.context_keys@[c]@);
            }
        }
    }
}

/// Training twice on the same name is training once: the second time
/// changes nothing, and the name is held once among those seen.
pub proof fn lemma_observe_idempotent(d0: Data, d1: Data, d2: Data, name: Seq<char>)
    requires
        d1.wf(),
        trained(d0, d1, name),
        trained(d1, d2, name),
    ensures
        d2 == d1,
        d1.seen().contains(upper(name)),
        forall|a: int, b: int|
            0 <= a < d1.seen().len() && 0 <= b < d1.seen().len() && d1.seen()[a] == upper(name)
                && d1.seen()[b] == upper(name) ==> a == b,
{
    if !d0.seen().contains(upper(name)) {
        assert(d1.seen().last() == upper(name));
    }
}

/// The names seen are held in uppercase.
pub proof fn lemma_seen_uppercase(d: Data)
    requires
        d.wf(),
    ensures
        forall|a: int| 0 <= a < d.seen().len() ==> upper(#[trigger] d.seen()[a]) == d.seen()[a],
{
}

/// Every context is `context_length` characters long: the initial one, each
/// one a name passes through, and each one a table is filed under.
pub proof fn lemma_context_width(d: Data, name: Seq<char>)
    requires
        d.wf(),
    ensures
        d.start_context().len() == d.context_length,
        window(d.context_length as nat, name, 0) == d.start_context(),
        forall|i: int| 0 <= i <= name.len() ==> (#[trigger] window(d.context_length as nat, name, i)).len() == d.context_length,
        forall|c: Seq<char>| #[trigger] d.has_table(c) ==> c.len() == d.context_length,
{
    assert(window(d.context_length as nat, name, 0) =~= d.start_context());
}

/// For every name seen, the context its last characters leave has a table
/// in which the end marker was observed.
pub proof fn lemma_every_name_can_end(d: Data, a: int)
    requires
        d.wf(),
        0 <= a < d.seen().len(),
    ensures
        d.has_table(window(d.context_length as nat, d.seen()[a], d.seen()[a].len() as int)),
        d.table_count(window(d.context_length as nat, d.seen()[a], d.seen()[a].len() as int), END) > 0,
{
}

/// Uppercasing an uppercase string changes nothing.
pub proof fn lemma_upper_idempotent(s: Seq<char>)
    ensures
        upper(upper(s)) == upper(s),
{
    assert forall|i: int| 0 <= i < s.len() implies upper_char(upper_char(s[i])) == upper_char(s[i]) by {
        let c = s[i];
        if 'a' <= c && c <= 'z' {
            assert((((c as u32) - 32) as char) as u32 == (c as u32) - 32);
        }
    }
    assert(upper(upper(s)) =~= upper(s));
}

/// The context after `ctx` once `c` is emitted: the oldest character leaves
/// and `c` enters at the end.
pub fn slide(ctx: &Vec<char>, c: char) -> (r: Vec<char>)
    requires
        ctx@.len() >= 1,
    ensures
        r@ == ctx@.drop_first().push(c),
{
    let n = ctx.len();
    let mut r: Vec<char> = Vec::with_capacity(n);
    let mut i: usize = 1;
    while i < n
        invariant
            n == ctx@.len(),
            1 <= i <= n,
            r@ == ctx@.subrange(1, i as int),
        decreases n - i,
    {
        r.push(ctx[i]);
        i = i + 1;
        proof {
            assert(r@ =~= ctx@.subrange(1, i as int));
        }
    }
    r.push(c);
    proof {
        assert(r@ =~= ctx@.drop_first().push(c));
    }
    r
}

} // verus!
