//! The layers of a module graph, and the registry that numbers them.
use vstd::prelude::*;
use vstd::utf8::encode_utf8;
use crate::bytes::{
    lemma_lex_irreflexive, lemma_lex_total, lemma_lex_transitive, lex_less, text_less,
};
use crate::text::lemma_same_bytes;

verus! {

/// What is known of a layer before it has a number.
#[derive(Clone, Copy, Debug)]
pub struct LayerRegistration {
    pub name: &'static str,
    pub user_friendly_name: Option<&'static str>,
}

impl LayerRegistration {
    /// The bytes of the name, by which layers are ordered.
    pub open spec fn key(self) -> Seq<u8> {
        encode_utf8(self.name@)
    }
}

/// No two registrations have the same name.
pub open spec fn distinct_names(registrations: Seq<LayerRegistration>) -> bool {
    forall|i: int, j: int|
        #![trigger registrations[i], registrations[j]]
        0 <= i < j < registrations.len() ==> registrations[i].name@ != registrations[j].name@
}

/// The registrations stand in the strict order of the bytes of their names.
pub open spec fn sorted_by_name(registrations: Seq<LayerRegistration>) -> bool {
    forall|i: int, j: int|
        #![trigger registrations[i], registrations[j]]
        0 <= i < j < registrations.len() ==> lex_less(
            registrations[i].key(),
            registrations[j].key(),
        )
}

/// `first` and `second` are the first two registrations with a name that more than one has, and
/// none that comes before it in the order of names is such a name.
pub open spec fn is_first_duplicate(
    registrations: Seq<LayerRegistration>,
    first: LayerRegistration,
    second: LayerRegistration,
) -> bool {
    &&& first.name@ == second.name@
    &&& exists|p: int, q: int|
        {
            &&& 0 <= p < q < registrations.len()
            &&& #[trigger] registrations[p] == first
            &&& #[trigger] registrations[q] == second
            &&& forall|r: int|
                0 <= r < q && r != p ==> #[trigger] registrations[r].name@ != first.name@
        }
    &&& forall|i: int, j: int|
        #![trigger registrations[i], registrations[j]]
        0 <= i < j < registrations.len() && registrations[i].name@ == registrations[j].name@
            ==> !lex_less(registrations[i].key(), first.key())
}

/// `order` names the places at which the registrations of `sorted` stood: each one once, in the
/// order of their names, and those of the same name in the order in which they stood.
spec fn is_stable_order(
    registrations: Seq<LayerRegistration>,
    sorted: Seq<LayerRegistration>,
    order: Seq<int>,
) -> bool {
    &&& sorted.len() == registrations.len()
    &&& order.len() == registrations.len()
    &&& forall|k: int| 0 <= k < order.len() ==> 0 <= #[trigger] order[k] < registrations.len()
    &&& forall|k: int|
        0 <= k < order.len() ==> sorted[k] == registrations[#[trigger] order[k]]
    &&& forall|i: int| 0 <= i < registrations.len() ==> #[trigger] order.contains(i)
    &&& forall|k: int, l: int|
        #![trigger sorted[k], sorted[l]]
        0 <= k < l < sorted.len() ==> !lex_less(sorted[l].key(), sorted[k].key())
    &&& forall|k: int, l: int|
        #![trigger order[k], order[l]]
        0 <= k < l < order.len() && sorted[k].key() == sorted[l].key() ==> order[k] < order[l]
}

/// Why registrations do not make up a registry.
#[derive(Clone, Copy, Debug)]
pub enum LayerRegistryError {
    /// Two layers have the same name.
    DuplicateName { first: LayerRegistration, second: LayerRegistration },
    /// There are more layers than numbers for them.
    TooManyLayers { count: usize },
}

/// The most layers that a registry holds.
pub const MAX_LAYERS: usize = 255;

/// All layers, sorted by name.
pub struct LayerRegistry {
    layers: Vec<LayerRegistration>,
}

impl View for LayerRegistry {
    type V = Seq<LayerRegistration>;

    closed spec fn view(&self) -> Seq<LayerRegistration> {
        self.layers@
    }
}

/// The place of a new registration among sorted ones: behind all that do not come after it.
proof fn lemma_insert_keeps_order(
    registrations: Seq<LayerRegistration>,
    sorted: Seq<LayerRegistration>,
    order: Seq<int>,
    new: LayerRegistration,
    at: int,
)
    requires
        is_stable_order(registrations, sorted, order),
        0 <= at <= sorted.len(),
        at > 0 ==> !lex_less(new.key(), sorted[at - 1].key()),
        forall|k: int| at <= k < sorted.len() ==> lex_less(new.key(), #[trigger] sorted[k].key()),
    ensures
        is_stable_order(
            registrations.push(new),
            sorted.insert(at, new),
            order.insert(at, registrations.len() as int),
        ),
{
    let n = registrations.len() as int;
    let more = registrations.push(new);
    let s = sorted.insert(at, new);
    let o = order.insert(at, n);
    assert forall|k: int| 0 <= k < at implies !lex_less(
        new.key(),
        #[trigger] sorted[k].key(),
    ) by {
        if lex_less(new.key(), sorted[k].key()) && k < at - 1 {
            assert(!lex_less(sorted[at - 1].key(), sorted[k].key()));
            lemma_lex_total(sorted[k].key(), sorted[at - 1].key());
            if lex_less(sorted[k].key(), sorted[at - 1].key()) {
                lemma_lex_transitive(new.key(), sorted[k].key(), sorted[at - 1].key());
            }
        }
    }
    assert forall|k: int| 0 <= k < o.len() implies 0 <= #[trigger] o[k] < more.len() && s[k]
        == more[o[k]] by {
        if k < at {
            assert(o[k] == order[k]);
        } else if k > at {
            assert(o[k] == order[k - 1]);
        }
    }
    assert forall|i: int| 0 <= i < more.len() implies #[trigger] o.contains(i) by {
        if i == n {
            assert(o[at] == n);
        } else {
            assert(order.contains(i));
            let k = choose|k: int| 0 <= k < order.len() && order[k] == i;
            if k < at {
                assert(o[k] == i);
            } else {
                assert(o[k + 1] == i);
            }
        }
    }
    assert forall|k: int, l: int|
        #![trigger s[k], s[l]]
        0 <= k < l < s.len() implies !lex_less(s[l].key(), s[k].key()) by {
        if k < at && l == at {
            assert(s[k] == sorted[k]);
        } else if k == at {
            assert(s[l] == sorted[l - 1]);
            if lex_less(s[l].key(), new.key()) {
                lemma_lex_transitive(new.key(), s[l].key(), new.key());
                lemma_lex_irreflexive(new.key());
            }
        } else {
            let x = sorted[if k < at { k } else { k - 1 }];
            let y = sorted[if l < at { l } else { l - 1 }];
            assert(s[k] == x && s[l] == y);
        }
    }
    assert forall|k: int, l: int|
        #![trigger o[k], o[l]]
        0 <= k < l < o.len() && s[k].key() == s[l].key() implies o[k] < o[l] by {
        if k == at {
            assert(s[l] == sorted[l - 1]);
            lemma_lex_irreflexive(new.key());
        } else if l == at {
            assert(o[k] == order[k]);
        } else {
            let x = if k < at { k } else { k - 1 };
            let y = if l < at { l } else { l - 1 };
            assert(o[k] == order[x] && o[l] == order[y]);
            assert(s[k] == sorted[x] && s[l] == sorted[y]);
        }
    }
}

/// Sorts registrations by name and keeps those of the same name in the order in which they stood.
fn sort_by_name(registrations: &Vec<LayerRegistration>) -> (r: (
    Vec<LayerRegistration>,
    Ghost<Seq<int>>,
))
    ensures
        is_stable_order(registrations@, r.0@, r.1@),
        r.0@.to_multiset() == registrations@.to_multiset(),
{
    let mut sorted: Vec<LayerRegistration> = Vec::new();
    let ghost mut order: Seq<int> = Seq::empty();
    let mut n: usize = 0;
    proof {
        assert(registrations@.take(0) =~= sorted@);
    }
    while n < registrations.len()
        invariant
            n <= registrations@.len(),
            is_stable_order(registrations@.take(n as int), sorted@, order),
            sorted@.to_multiset() == registrations@.take(n as int).to_multiset(),
        decreases registrations@.len() - n,
    {
        let new = registrations[n];
        let mut at: usize = sorted.len();
        while at > 0 && text_less(new.name, sorted[at - 1].name)
            invariant
                at <= sorted@.len(),
                forall|k: int|
                    at <= k < sorted@.len() ==> lex_less(new.key(), #[trigger] sorted@[k].key()),
            ensures
                at <= sorted@.len(),
                at > 0 ==> !lex_less(new.key(), sorted@[at - 1].key()),
                forall|k: int|
                    at <= k < sorted@.len() ==> lex_less(new.key(), #[trigger] sorted@[k].key()),
            decreases at,
        {
            at -= 1;
        }
        proof {
            let before = registrations@.take(n as int);
            lemma_insert_keeps_order(before, sorted@, order, new, at as int);
            assert(registrations@.take(n + 1) =~= before.push(new));
            order = order.insert(at as int, n as int);
            vstd::seq_lib::to_multiset_insert(sorted@, at as int, new);
            vstd::seq_lib::to_multiset_build(before, new);
        }
        sorted.insert(at, new);
        n += 1;
    }
    proof {
        assert(registrations@.take(n as int) =~= registrations@);
    }
    (sorted, Ghost(order))
}

/// Neighbours of the same name in the order of names are the first such pair.
proof fn lemma_neighbours_are_first_duplicate(
    registrations: Seq<LayerRegistration>,
    sorted: Seq<LayerRegistration>,
    order: Seq<int>,
    at: int,
)
    requires
        is_stable_order(registrations, sorted, order),
        0 <= at < sorted.len() - 1,
        sorted[at].name@ == sorted[at + 1].name@,
        forall|k: int|
            0 <= k < at ==> #[trigger] sorted[k].name@ != sorted[k + 1].name@,
    ensures
        is_first_duplicate(registrations, sorted[at], sorted[at + 1]),
        !distinct_names(registrations),
{
    let first = sorted[at];
    let second = sorted[at + 1];
    let p = order[at];
    let q = order[at + 1];
    assert(p < q);
    assert(registrations[p] == first && registrations[q] == second);
    assert forall|r: int| 0 <= r < q && r != p implies #[trigger] registrations[r].name@
        != first.name@ by {
        assert(order.contains(r));
        let m = choose|m: int| 0 <= m < order.len() && order[m] == r;
        assert(sorted[m] == registrations[r]);
        if registrations[r].name@ == first.name@ {
            if m < at {
                lemma_strict_up_to(sorted, at, m);
                lemma_lex_irreflexive(first.key());
            } else if m > at + 1 {
                assert(order[at + 1] < order[m]);
            }
        }
    }
    assert forall|i: int, j: int|
        #![trigger registrations[i], registrations[j]]
        0 <= i < j < registrations.len() && registrations[i].name@
            == registrations[j].name@ implies !lex_less(registrations[i].key(), first.key()) by {
        if lex_less(registrations[i].key(), first.key()) {
            assert(order.contains(i) && order.contains(j));
            let k = choose|k: int| 0 <= k < order.len() && order[k] == i;
            let l = choose|l: int| 0 <= l < order.len() && order[l] == j;
            assert(sorted[k] == registrations[i] && sorted[l] == registrations[j]);
            lemma_lex_irreflexive(first.key());
            if at <= k {
                assert(!lex_less(sorted[k].key(), sorted[at].key()) || k == at);
            }
            if at <= l {
                assert(!lex_less(sorted[l].key(), sorted[at].key()) || l == at);
            }
            if k < l {
                lemma_strict_up_to(sorted, l, k);
            } else {
                lemma_strict_up_to(sorted, k, l);
            }
            lemma_lex_irreflexive(sorted[k].key());
        }
    }
}

/// Where no neighbours have the same name, the order is strict.
proof fn lemma_strict_up_to(sorted: Seq<LayerRegistration>, to: int, from: int)
    requires
        0 <= from < to < sorted.len(),
        forall|k: int, l: int|
            #![trigger sorted[k], sorted[l]]
            0 <= k < l < sorted.len() ==> !lex_less(sorted[l].key(), sorted[k].key()),
        forall|k: int| 0 <= k < to ==> #[trigger] sorted[k].name@ != sorted[k + 1].name@,
    ensures
        lex_less(sorted[from].key(), sorted[to].key()),
    decreases to - from,
{
    assert(sorted[to - 1].name@ != sorted[to].name@);
    lemma_lex_total(sorted[to - 1].key(), sorted[to].key());
    if sorted[to - 1].key() == sorted[to].key() {
        lemma_same_bytes(sorted[to - 1].name@, sorted[to].name@);
    }
    if from < to - 1 {
        lemma_strict_up_to(sorted, to - 1, from);
        lemma_lex_transitive(sorted[from].key(), sorted[to - 1].key(), sorted[to].key());
    }
}

/// Strictly sorted registrations come from registrations of distinct names.
proof fn lemma_strict_means_distinct(
    registrations: Seq<LayerRegistration>,
    sorted: Seq<LayerRegistration>,
    order: Seq<int>,
)
    requires
        is_stable_order(registrations, sorted, order),
        sorted_by_name(sorted),
    ensures
        distinct_names(registrations),
{
    assert forall|i: int, j: int|
        #![trigger registrations[i], registrations[j]]
        0 <= i < j < registrations.len() implies registrations[i].name@
        != registrations[j].name@ by {
        assert(order.contains(i) && order.contains(j));
        let k = choose|k: int| 0 <= k < order.len() && order[k] == i;
        let l = choose|l: int| 0 <= l < order.len() && order[l] == j;
        assert(sorted[k] == registrations[i] && sorted[l] == registrations[j]);
        lemma_lex_irreflexive(sorted[k].key());
        assert(k != l);
    }
}

impl LayerRegistry {
    #[verifier::type_invariant]
    spec fn well_formed(self) -> bool {
        &&& sorted_by_name(self.layers@)
        &&& self.layers@.len() <= MAX_LAYERS
    }

    /// Makes the registry of all registered layers. The order in which they were registered does
    /// not matter.
    pub fn collect(registrations: Vec<LayerRegistration>) -> (r: Result<
        LayerRegistry,
        LayerRegistryError,
    >)
        ensures
            r is Ok <==> distinct_names(registrations@) && registrations@.len() <= MAX_LAYERS,
            r is Ok <==> registrations@.len() <= 255 && forall|i: int, j: int|
                #![trigger registrations@[i], registrations@[j]]
                0 <= i < j < registrations@.len() ==> registrations@[i].name@
                    != registrations@[j].name@,
            match r {
                Ok(registry) => {
                    &&& sorted_by_name(registry@)
                    &&& registry@.to_multiset() == registrations@.to_multiset()
                    &&& forall|i: int, j: int|
                        #![trigger registry@[i], registry@[j]]
                        0 <= i < j < registry@.len() ==> lex_less(
                            encode_utf8(registry@[i].name@),
                            encode_utf8(registry@[j].name@),
                        )
                },
                Err(LayerRegistryError::DuplicateName { first, second }) => {
                    &&& !distinct_names(registrations@)
                    &&& is_first_duplicate(registrations@, first, second)
                    &&& first.name@ == second.name@
                    &&& exists|p: int, q: int|
                        {
                            &&& 0 <= p < q < registrations@.len()
                            &&& #[trigger] registrations@[p] == first
                            &&& #[trigger] registrations@[q] == second
                            &&& forall|i: int|
                                0 <= i < q && i != p ==> #[trigger] registrations@[i].name@
                                    != first.name@
                        }
                    &&& forall|i: int, j: int|
                        #![trigger registrations@[i], registrations@[j]]
                        0 <= i < j < registrations@.len() && registrations@[i].name@
                            == registrations@[j].name@ ==> !lex_less(
                            encode_utf8(registrations@[i].name@),
                            encode_utf8(first.name@),
                        )
                },
                Err(LayerRegistryError::TooManyLayers { count }) => {
                    &&& distinct_names(registrations@)
                    &&& count == registrations@.len()
                    &&& count > MAX_LAYERS
                },
            },
    {
        let (layers, Ghost(order)) = sort_by_name(&registrations);
        let mut i: usize = 1;
        while i < layers.len()
            invariant
                1 <= i,
                is_stable_order(registrations@, layers@, order),
                forall|k: int|
                    0 <= k < i - 1 && k < layers@.len() - 1 ==> #[trigger] layers@[k].name@
                        != layers@[k + 1].name@,
            decreases layers@.len() - i,
        {
            let first = layers[i - 1];
            let second = layers[i];
            if !text_less(first.name, second.name) {
                proof {
                    lemma_lex_total(first.key(), second.key());
                    lemma_same_bytes(first.name@, second.name@);
                    lemma_neighbours_are_first_duplicate(
                        registrations@,
                        layers@,
                        order,
                        i - 1,
                    );
                }
                return Err(LayerRegistryError::DuplicateName { first, second });
            }
            proof {
                lemma_lex_irreflexive(first.key());
            }
            i += 1;
        }
        proof {
            assert forall|k: int, l: int|
                #![trigger layers@[k], layers@[l]]
                0 <= k < l < layers@.len() implies lex_less(
                layers@[k].key(),
                layers@[l].key(),
            ) by {
                lemma_strict_up_to(layers@, l, k);
            }
            lemma_strict_means_distinct(registrations@, layers@, order);
        }
        if layers.len() > MAX_LAYERS {
            return Err(LayerRegistryError::TooManyLayers { count: layers.len() });
        }
        Ok(LayerRegistry { layers })
    }

    /// How many layers there are.
    pub fn len(&self) -> (count: usize)
        ensures
            count == self@.len(),
            count <= MAX_LAYERS,
            sorted_by_name(self@),
    {
        proof {
            use_type_invariant(self);
        }
        self.layers.len()
    }

    /// Finds the number of the layer with the given name.
    pub fn find(&self, name: &str) -> (id: Option<u8>)
        ensures
            match id {
                Some(i) => i < self@.len() && self@[i as int].name@ == name@,
                None => forall|k: int|
                    0 <= k < self@.len() ==> #[trigger] self@[k].name@ != name@,
            },
            sorted_by_name(self@),
            self@.len() <= MAX_LAYERS,
    {
        proof {
            use_type_invariant(self);
        }
        let mut low: usize = 0;
        let mut high: usize = self.layers.len();
        while low < high
            invariant
                low <= high <= self.layers@.len() <= MAX_LAYERS,
                sorted_by_name(self.layers@),
                forall|k: int|
                    0 <= k < low ==> lex_less(
                        #[trigger] self.layers@[k].key(),
                        encode_utf8(name@),
                    ),
                forall|k: int|
                    high <= k < self.layers@.len() ==> lex_less(
                        encode_utf8(name@),
                        #[trigger] self.layers@[k].key(),
                    ),
            decreases high - low,
        {
            let middle: usize = low + (high - low) / 2;
            let candidate = self.layers[middle].name;
            if text_less(candidate, name) {
                proof {
                    assert forall|k: int| 0 <= k < middle implies lex_less(
                        #[trigger] self.layers@[k].key(),
                        encode_utf8(name@),
                    ) by {
                        lemma_lex_transitive(
                            self.layers@[k].key(),
                            self.layers@[middle as int].key(),
                            encode_utf8(name@),
                        );
                    }
                }
                low = middle + 1;
            } else if text_less(name, candidate) {
                proof {
                    assert forall|k: int| middle < k < self.layers@.len() implies lex_less(
                        encode_utf8(name@),
                        #[trigger] self.layers@[k].key(),
                    ) by {
                        lemma_lex_transitive(
                            encode_utf8(name@),
                            self.layers@[middle as int].key(),
                            self.layers@[k].key(),
                        );
                    }
                }
                high = middle;
            } else {
                proof {
                    lemma_lex_total(encode_utf8(candidate@), encode_utf8(name@));
                    lemma_same_bytes(candidate@, name@);
                }
                return Some(middle as u8);
            }
        }
        proof {
            lemma_lex_irreflexive(encode_utf8(name@));
            assert forall|k: int| 0 <= k < self@.len() implies #[trigger] self@[k].name@
                != name@ by {
                if k < low {
                    assert(lex_less(self.layers@[k].key(), encode_utf8(name@)));
                } else {
                    assert(lex_less(encode_utf8(name@), self.layers@[k].key()));
                }
            }
        }
        None
    }
}

/// A layer identifies a distinct part of the module graph.
#[derive(Copy, Clone, Hash, Debug, PartialEq, Eq, Structural)]
pub struct Layer {
    id: u8,
}

impl Layer {
    /// The number of the layer among all layers.
    pub closed spec fn id(self) -> int {
        self.id as int
    }

    /// The layer is one of the registry's.
    pub open spec fn is_in(self, layers: Seq<LayerRegistration>) -> bool {
        0 <= self.id() < layers.len()
    }

    /// The name of the layer in the registry.
    pub open spec fn name_in(self, layers: Seq<LayerRegistration>) -> Seq<char> {
        layers[self.id()].name@
    }

    /// A layer is its number.
    pub proof fn lemma_id_is_layer(self, other: Layer)
        ensures
            self.id() == other.id() ==> self == other,
    {
    }

    /// The layer with the given name, which the registry must hold. There is no other layer of
    /// that name in it.
    pub fn new(layers: &LayerRegistry, name: &str) -> (layer: Layer)
        requires
            name@.len() > 0,
            exists|k: int| 0 <= k < layers@.len() && #[trigger] layers@[k].name@ == name@,
        ensures
            layer.is_in(layers@),
            layer.name_in(layers@) == name@,
            0 <= layer.id() < layers@.len(),
            layers@[layer.id()].name@ == name@,
            forall|other: Layer| #[trigger]
                other.is_in(layers@) && other.name_in(layers@) == name@ ==> other == layer,
            sorted_by_name(layers@),
    {
        let layer = match layers.find(name) {
            Some(id) => Layer { id },
            None => vstd::pervasive::unreached(),
        };
        proof {
            lemma_lex_irreflexive(encode_utf8(name@));
        }
        layer
    }

    /// The layer with the given number, as it was written down.
    pub fn from_number(number: u8) -> (layer: Layer)
        ensures
            layer.id() == number,
    {
        Layer { id: number }
    }

    /// The number of the layer, to be written down.
    pub fn number(&self) -> (number: u8)
        ensures
            number == self.id(),
    {
        self.id
    }

    /// A name for this layer that is meant to be shown to users.
    pub fn user_friendly_name(&self, layers: &LayerRegistry) -> (name: &'static str)
        requires
            self.is_in(layers@),
        ensures
            name@ == match layers@[self.id()].user_friendly_name {
                Some(friendly) => friendly@,
                None => self.name_in(layers@),
            },
            name@ == match layers@[self.id()].user_friendly_name {
                Some(friendly) => friendly@,
                None => layers@[self.id()].name@,
            },
    {
        let registration = layers.layers[self.id as usize];
        match registration.user_friendly_name {
            Some(friendly) => friendly,
            None => registration.name,
        }
    }

    /// The name under which this layer was registered.
    pub fn name(&self, layers: &LayerRegistry) -> (name: &'static str)
        requires
            self.is_in(layers@),
        ensures
            name@ == self.name_in(layers@),
            name@ == layers@[self.id()].name@,
    {
        layers.layers[self.id as usize].name
    }
}

}
