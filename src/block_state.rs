use vstd::prelude::*;

verus! {

/// What a block state is, as plain values: its block id and its properties in order.
pub struct BlockStateView {
    pub id: Seq<char>,
    pub props: Seq<(Seq<char>, Seq<char>)>,
}

/// A block id together with its state properties (such as `facing = north`).
/// Two states are equal when their ids and their property lists are equal.
#[derive(Debug, Clone, Eq, Hash)]
pub struct BlockState {
    block: String,
    state: Vec<(String, String)>,
}

pub open spec fn prop_view(p: (String, String)) -> (Seq<char>, Seq<char>) {
    (p.0@, p.1@)
}

impl View for BlockState {
    type V = BlockStateView;

    closed spec fn view(&self) -> BlockStateView {
        BlockStateView { id: self.block@, props: self.state@.map_values(|p: (String, String)| prop_view(p)) }
    }
}

/// The id of the empty block.
pub open spec fn air_id() -> Seq<char> {
    seq!['a', 'i', 'r']
}

pub(crate) fn copy_props(props: &Vec<(String, String)>) -> (r: Vec<(String, String)>)
    ensures
        r@.map_values(|p: (String, String)| prop_view(p)) == props@.map_values(
            |p: (String, String)| prop_view(p),
        ),
{
    let mut r: Vec<(String, String)> = Vec::new();
    let mut i: usize = 0;
    while i < props.len()
        invariant
            i <= props@.len(),
            r@.len() == i,
            forall|j: int| 0 <= j < i ==> prop_view(#[trigger] r@[j]) == prop_view(props@[j]),
        decreases props@.len() - i,
    {
        let k = props[i].0.clone();
        let v = props[i].1.clone();
        r.push((k, v));
        i = i + 1;
    }
    assert(r@.map_values(|p: (String, String)| prop_view(p)) =~= props@.map_values(
        |p: (String, String)| prop_view(p),
    ));
    r
}

/// Property keys in order: by the first character that differs, and a key before every
/// longer key that starts with it.
pub open spec fn key_lt(a: Seq<char>, b: Seq<char>) -> bool
    decreases a.len(),
{
    if a.len() == 0 {
        b.len() > 0
    } else if b.len() == 0 {
        false
    } else if a[0] != b[0] {
        (a[0] as u32) < (b[0] as u32)
    } else {
        key_lt(a.drop_first(), b.drop_first())
    }
}

/// Properties with strictly increasing keys, so each key once.
pub open spec fn props_sorted(s: Seq<(Seq<char>, Seq<char>)>) -> bool {
    forall|i: int, j: int| 0 <= i < j < s.len() ==> key_lt(#[trigger] s[i].0, #[trigger] s[j].0)
}

/// Whether entry `j` of `s` is the last one with its key.
pub open spec fn last_of_key(s: Seq<(Seq<char>, Seq<char>)>, j: int) -> bool {
    forall|k: int| j < k < s.len() ==> (#[trigger] s[k]).0 != s[j].0
}

/// The pairs of `input` that are the last with their key.
pub open spec fn last_pairs(input: Seq<(Seq<char>, Seq<char>)>) -> Set<(Seq<char>, Seq<char>)> {
    Set::new(|x: (Seq<char>, Seq<char>)| exists|j: int| 0 <= j < input.len() && last_of_key(input, j) && input[j] == x)
}

/// `out` is `input` as an ordered map: sorted by key, and holding for each key of the
/// input the value it was given last.
pub open spec fn normalizes(input: Seq<(Seq<char>, Seq<char>)>, out: Seq<(Seq<char>, Seq<char>)>) -> bool {
    &&& props_sorted(out)
    &&& out.to_set() == last_pairs(input)
}

proof fn lemma_key_lt_irreflexive(a: Seq<char>)
    ensures
        !key_lt(a, a),
    decreases a.len(),
{
    if a.len() > 0 {
        lemma_key_lt_irreflexive(a.drop_first());
    }
}

proof fn lemma_key_lt_transitive(a: Seq<char>, b: Seq<char>, c: Seq<char>)
    requires
        key_lt(a, b),
        key_lt(b, c),
    ensures
        key_lt(a, c),
    decreases a.len(),
{
    if a.len() > 0 && b.len() > 0 && c.len() > 0 {
        if a[0] == b[0] && b[0] == c[0] {
            lemma_key_lt_transitive(a.drop_first(), b.drop_first(), c.drop_first());
        }
    }
}

proof fn lemma_key_lt_skip(a: Seq<char>, b: Seq<char>, i: int)
    requires
        0 <= i <= a.len(),
        i <= b.len(),
        a.take(i) == b.take(i),
    ensures
        key_lt(a, b) == key_lt(a.subrange(i, a.len() as int), b.subrange(i, b.len() as int)),
    decreases i,
{
    if i == 0 {
        assert(a.subrange(0, a.len() as int) == a);
        assert(b.subrange(0, b.len() as int) == b);
    } else {
        assert(a[0] == a.take(i)[0]);
        assert(b[0] == b.take(i)[0]);
        assert(a.drop_first().take(i - 1) == a.take(i).drop_first());
        assert(b.drop_first().take(i - 1) == b.take(i).drop_first());
        lemma_key_lt_skip(a.drop_first(), b.drop_first(), i - 1);
        assert(a.drop_first().subrange(i - 1, a.len() - 1) == a.subrange(i, a.len() as int));
        assert(b.drop_first().subrange(i - 1, b.len() - 1) == b.subrange(i, b.len() as int));
    }
}

/// Compares two keys: negative when `a` comes first, zero when equal, positive otherwise.
fn key_cmp(a: &str, b: &str) -> (r: i8)
    ensures
        (r < 0) == key_lt(a@, b@),
        (r == 0) == (a@ == b@),
        (r > 0) == key_lt(b@, a@),
{
    let la = a.unicode_len();
    let lb = b.unicode_len();
    let mut i: usize = 0;
    while i < la && i < lb
        invariant
            la == a@.len(),
            lb == b@.len(),
            i <= la && i <= lb,
            a@.take(i as int) == b@.take(i as int),
        decreases la - i,
    {
        let ca = a.get_char(i);
        let cb = b.get_char(i);
        if ca != cb {
            proof {
                lemma_key_lt_skip(a@, b@, i as int);
                lemma_key_lt_skip(b@, a@, i as int);
                assert(a@.subrange(i as int, la as int)[0] == ca);
                assert(b@.subrange(i as int, lb as int)[0] == cb);
                assert(a@[i as int] != b@[i as int]);
            }
            if (ca as u32) < (cb as u32) {
                return -1;
            } else {
                return 1;
            }
        }
        proof {
            assert(a@.take(i + 1) == a@.take(i as int).push(ca));
            assert(b@.take(i + 1) == b@.take(i as int).push(cb));
        }
        i = i + 1;
    }
    proof {
        lemma_key_lt_skip(a@, b@, i as int);
        lemma_key_lt_skip(b@, a@, i as int);
        lemma_key_lt_irreflexive(a@);
        if la == lb {
            assert(a@ == a@.take(i as int));
            assert(b@ == b@.take(i as int));
        } else if la < lb {
            assert(a@.subrange(i as int, la as int).len() == 0);
            assert(a@ != b@);
        } else {
            assert(b@.subrange(i as int, lb as int).len() == 0);
            assert(a@ != b@);
        }
    }
    if la == lb {
        0
    } else if la < lb {
        -1
    } else {
        1
    }
}

pub open spec fn views_of(v: Seq<(String, String)>) -> Seq<(Seq<char>, Seq<char>)> {
    v.map_values(|p: (String, String)| prop_view(p))
}

/// Puts property `(k, v)` into the sorted properties `out`: replaces the value of key `k`,
/// or inserts the pair in key order.
fn insert_prop(out: &mut Vec<(String, String)>, k: String, v: String)
    requires
        props_sorted(views_of(old(out)@)),
    ensures
        props_sorted(views_of(final(out)@)),
        forall|x: (Seq<char>, Seq<char>)| #[trigger] views_of(final(out)@).contains(x) <==> (x == (k@, v@) || (views_of(old(out)@).contains(x) && x.0 != k@)),
{
    let ghost o = views_of(out@);
    let ghost kv = (k@, v@);
    let mut p: usize = 0;
    while p < out.len() && key_cmp(out[p].0.as_str(), k.as_str()) < 0
        invariant
            p <= out@.len(),
            o == views_of(out@),
            forall|i: int| 0 <= i < p ==> key_lt(#[trigger] o[i].0, k@),
        decreases out@.len() - p,
    {
        p = p + 1;
    }
    proof {
        assert forall|i: int, j: int| 0 <= i < j < o.len() implies o[i].0 != o[j].0 by {
            lemma_key_lt_irreflexive(o[i].0);
        }
    }
    if p < out.len() && key_cmp(out[p].0.as_str(), k.as_str()) == 0 {
        out.set(p, (k, v));
        proof {
            let f = views_of(out@);
            assert(f =~= o.update(p as int, kv));
            assert(o[p as int].0 == kv.0);
            assert forall|i: int, j: int| 0 <= i < j < f.len() implies key_lt(#[trigger] f[i].0, #[trigger] f[j].0) by {
                assert(f[i].0 == o[i].0);
                assert(f[j].0 == o[j].0);
            }
            assert forall|x: (Seq<char>, Seq<char>)| #[trigger] f.contains(x) <==> (x == kv || (o.contains(x) && x.0 != kv.0)) by {
                if f.contains(x) {
                    let i = choose|i: int| 0 <= i < f.len() && f[i] == x;
                    if i != p {
                        assert(o[i] == x);
                        if i < p {
                            assert(o[i].0 != o[p as int].0);
                        } else {
                            assert(o[p as int].0 != o[i].0);
                        }
                    }
                }
                if x == kv {
                    assert(f[p as int] == x);
                }
                if o.contains(x) && x.0 != kv.0 {
                    let i = choose|i: int| 0 <= i < o.len() && o[i] == x;
                    assert(i != p);
                    assert(f[i] == x);
                }
            }
        }
    } else {
        proof {
            if p < o.len() {
                assert(key_lt(kv.0, o[p as int].0));
            }
            assert forall|j: int| p <= j < o.len() implies key_lt(kv.0, #[trigger] o[j].0) by {
                if j > p {
                    lemma_key_lt_transitive(kv.0, o[p as int].0, o[j].0);
                }
            }
        }
        out.insert(p, (k, v));
        proof {
            let f = views_of(out@);
            assert(f =~= o.insert(p as int, kv));
            assert forall|i: int, j: int| 0 <= i < j < f.len() implies key_lt(#[trigger] f[i].0, #[trigger] f[j].0) by {
                if j < p {
                } else if j == p {
                } else if i < p {
                    assert(f[j] == o[j - 1]);
                    lemma_key_lt_transitive(f[i].0, kv.0, o[j - 1].0);
                } else if i == p {
                    assert(f[j] == o[j - 1]);
                } else {
                    assert(f[i] == o[i - 1] && f[j] == o[j - 1]);
                }
            }
            assert forall|x: (Seq<char>, Seq<char>)| #[trigger] f.contains(x) <==> (x == kv || (o.contains(x) && x.0 != kv.0)) by {
                if f.contains(x) {
                    let i = choose|i: int| 0 <= i < f.len() && f[i] == x;
                    if i < p {
                        assert(o[i] == x);
                        lemma_key_lt_irreflexive(x.0);
                    } else if i > p {
                        assert(o[i - 1] == x);
                        lemma_key_lt_irreflexive(x.0);
                    }
                }
                if x == kv {
                    assert(f[p as int] == x);
                }
                if o.contains(x) && x.0 != kv.0 {
                    let i = choose|i: int| 0 <= i < o.len() && o[i] == x;
                    if i < p {
                        assert(f[i] == x);
                    } else {
                        assert(f[i + 1] == x);
                    }
                }
            }
        }
    }
}

impl BlockState {
    /// A state of block `id` whose properties are `state` as an ordered map: sorted by key,
    /// each key once, with the value it was given last.
    pub fn from_parts(id: &str, state: Vec<(String, String)>) -> (r: BlockState)
        ensures
            r@.id == id@,
            normalizes(views_of(state@), r@.props),
    {
        let ghost input = views_of(state@);
        let mut out: Vec<(String, String)> = Vec::new();
        let mut j: usize = 0;
        while j < state.len()
            invariant
                j <= state@.len(),
                input == views_of(state@),
                props_sorted(views_of(out@)),
                forall|x: (Seq<char>, Seq<char>)| #[trigger] views_of(out@).contains(x) <==> exists|q: int|
                    0 <= q < j && last_of_key(input.take(j as int), q) && input[q] == x,
            decreases state@.len() - j,
        {
            let k = state[j].0.clone();
            let v = state[j].1.clone();
            let ghost before = views_of(out@);
            insert_prop(&mut out, k, v);
            proof {
                let t0 = input.take(j as int);
                let t1 = input.take(j + 1);
                assert(input[j as int] == (k@, v@));
                assert forall|x: (Seq<char>, Seq<char>)| #[trigger] views_of(out@).contains(x) <==> exists|q: int|
                    0 <= q < j + 1 && last_of_key(t1, q) && input[q] == x by {
                    if views_of(out@).contains(x) {
                        if x == (k@, v@) {
                            assert(last_of_key(t1, j as int));
                        } else {
                            assert(before.contains(x));
                            let q = choose|q: int| 0 <= q < j && last_of_key(t0, q) && input[q] == x;
                            assert(last_of_key(t1, q)) by {
                                assert forall|m: int| q < m < t1.len() implies (#[trigger] t1[m]).0 != t1[q].0 by {
                                    if m < j {
                                        assert(t0[m] == t1[m]);
                                    }
                                }
                            }
                        }
                    }
                    if exists|q: int| 0 <= q < j + 1 && last_of_key(t1, q) && input[q] == x {
                        let q = choose|q: int| 0 <= q < j + 1 && last_of_key(t1, q) && input[q] == x;
                        if q < j {
                            assert(t1[j as int].0 != t1[q].0);
                            assert(last_of_key(t0, q)) by {
                                assert forall|m: int| q < m < t0.len() implies (#[trigger] t0[m]).0 != t0[q].0 by {
                                    assert(t1[m] == t0[m]);
                                }
                            }
                            assert(before.contains(x));
                        }
                    }
                }
            }
            j = j + 1;
        }
        let ghost o = views_of(out@);
        proof {
            assert(input.take(j as int) == input);
            assert forall|x: (Seq<char>, Seq<char>)| o.to_set().contains(x) <==> #[trigger] last_pairs(input).contains(x) by {
                assert(o.to_set().contains(x) == o.contains(x));
            }
            assert(o.to_set() =~= last_pairs(input));
        }
        let r = BlockState { block: id.to_owned(), state: out };
        proof {
            assert(r@.props == o);
            assert(props_sorted(o));
            assert(input == views_of(state@));
            assert(normalizes(input, o));
        }
        r
    }

    pub fn get_id(&self) -> (r: &str)
        ensures
            r@ == self@.id,
    {
        self.block.as_str()
    }

    pub fn get_state(&self) -> (r: &Vec<(String, String)>)
        ensures
            r@.map_values(|p: (String, String)| prop_view(p)) == self@.props,
    {
        &self.state
    }

    /// Whether this is the empty block, judged by its id alone.
    pub fn is_air(&self) -> (r: bool)
        ensures
            r == (self@.id == air_id()),
    {
        let air = String::from_str("air");
        proof {
            reveal_strlit("air");
        }
        let r = self.block == air;
        assert(r ==> self@.id =~= air_id());
        assert(self@.id =~= air_id() ==> self.block@ =~= air@);
        r
    }

    /// A copy of this state.
    pub fn duplicate(&self) -> (r: BlockState)
        ensures
            r@ == self@,
    {
        BlockState { block: self.block.clone(), state: copy_props(&self.state) }
    }

    /// Structural equality of two states.
    pub fn same_as(&self, other: &BlockState) -> (r: bool)
        ensures
            r == (self@ == other@),
    {
        if self.block != other.block {
            return false;
        }
        if self.state.len() != other.state.len() {
            assert(self@.props.len() != other@.props.len());
            return false;
        }
        let mut i: usize = 0;
        while i < self.state.len()
            invariant
                i <= self.state@.len(),
                self.state@.len() == other.state@.len(),
                self.block@ == other.block@,
                forall|j: int| 0 <= j < i ==> prop_view(#[trigger] self.state@[j]) == prop_view(other.state@[j]),
            decreases self.state@.len() - i,
        {
            if self.state[i].0 != other.state[i].0 || self.state[i].1 != other.state[i].1 {
                assert(self@.props[i as int] != other@.props[i as int]);
                return false;
            }
            i = i + 1;
        }
        assert(self@.props =~= other@.props);
        true
    }
}

impl PartialEq for BlockState {
    fn eq(&self, other: &BlockState) -> (r: bool) {
        self.same_as(other)
    }
}

impl vstd::std_specs::cmp::PartialEqSpecImpl for BlockState {
    open spec fn obeys_eq_spec() -> bool {
        true
    }

    open spec fn eq_spec(&self, other: &BlockState) -> bool {
        self@ == other@
    }
}

} // verus!
