//! The catalog: products in insertion order, with an index per field kept
//! consistent with them.
use vstd::prelude::*;

use crate::index::{index_model, positions_for, Index};
use crate::product::{field_text, key_of, keys_of, matching, not_matching, Field, Product};
use crate::text::{lookup_key, lower_of, lowercase, trim_of, trimmed};

verus! {

/// Why `add` refused a product.
#[derive(Clone, Copy, Debug, PartialEq, Eq, Structural)]
pub enum CatalogError {
    /// A name, brand or category is empty once trimmed.
    EmptyField,
    /// No further id, or no further position, can be issued.
    Full,
}

/// Why a product list was not accepted as a catalog.
#[derive(Clone, Copy, Debug, PartialEq, Eq, Structural)]
pub enum LoadError {
    /// A product has an empty name, brand or category.
    EmptyField,
    /// Two products share an id.
    DuplicateId,
    /// A product has the largest id, so no id is left to issue.
    IdOverflow,
}

/// What a catalog holds: its products in order, and the id the next added
/// product gets.
pub struct CatalogView {
    pub products: Seq<Product>,
    pub next_id: u64,
}

/// An ordered list of products with an index over each field.
pub struct Catalog {
    products: Vec<Product>,
    next_id: u64,
    by_name: Index,
    by_brand: Index,
    by_category: Index,
}

/// The index of a product's position under `f`, keyed by lowercased text.
pub open spec fn index_for(ps: Seq<Product>, f: Field) -> Map<Seq<char>, Seq<usize>> {
    index_model(keys_of(ps, f))
}

/// Ids are pairwise distinct, each below `next_id`, and no name, brand or
/// category is empty.
pub open spec fn valid_products(ps: Seq<Product>, next_id: u64) -> bool {
    &&& ps.len() <= usize::MAX
    &&& 1 <= next_id
    &&& forall|i: int, j: int| 0 <= i < j < ps.len() ==> ps[i].id != ps[j].id
    &&& forall|i: int| 0 <= i < ps.len() ==> (#[trigger] ps[i]).id < next_id
    &&& forall|i: int| 0 <= i < ps.len() ==> has_fields(#[trigger] ps[i])
}

/// No two products share an id.
pub open spec fn distinct_ids(ps: Seq<Product>) -> bool {
    forall|i: int, j: int| 0 <= i < j < ps.len() ==> ps[i].id != ps[j].id
}

/// Every product has a name, a brand and a category.
pub open spec fn all_have_fields(ps: Seq<Product>) -> bool {
    forall|i: int| 0 <= i < ps.len() ==> has_fields(#[trigger] ps[i])
}

/// A product list that `Catalog::from_products` accepts.
pub open spec fn loadable(ps: Seq<Product>) -> bool {
    &&& all_have_fields(ps)
    &&& distinct_ids(ps)
    &&& forall|i: int| 0 <= i < ps.len() ==> (#[trigger] ps[i]).id < u64::MAX
}

/// Name, brand and category are not empty.
pub open spec fn has_fields(p: Product) -> bool {
    p.name@.len() > 0 && p.brand@.len() > 0 && p.category@.len() > 0
}

/// The positions of key `k` under `f`, taken in order, point at exactly the
/// products that match `k`.
pub proof fn lemma_positions_match(ps: Seq<Product>, f: Field, k: Seq<char>)
    requires
        ps.len() <= usize::MAX,
    ensures
        positions_for(keys_of(ps, f), k).len() == matching(ps, f, k).len(),
        forall|a: int|
            0 <= a < positions_for(keys_of(ps, f), k).len() ==> {
                &&& #[trigger] positions_for(keys_of(ps, f), k)[a] < ps.len()
                &&& ps[positions_for(keys_of(ps, f), k)[a] as int] == matching(ps, f, k)[a]
            },
    decreases ps.len(),
{
    reveal(Seq::filter);
    if ps.len() > 0 {
        let ps0 = ps.drop_last();
        lemma_positions_match(ps0, f, k);
        let keys = keys_of(ps, f);
        assert(keys.drop_last() =~= keys_of(ps0, f));
        assert(keys.last() == key_of(ps.last(), f));
        let pos = positions_for(keys, k);
        let pos0 = positions_for(keys_of(ps0, f), k);
        let m = matching(ps, f, k);
        let m0 = matching(ps0, f, k);
        assert forall|a: int| 0 <= a < pos.len() implies #[trigger] pos[a] < ps.len() && ps[pos[a] as int]
            == m[a] by {
            if a < pos0.len() {
                assert(pos[a] == pos0[a]);
                assert(ps[pos0[a] as int] == ps0[pos0[a] as int]);
                assert(m[a] == m0[a]);
            }
        }
    }
}

/// When no product has key `k` under `f`, nothing matches `k` and nothing is
/// filtered out by it.
pub proof fn lemma_absent_key(ps: Seq<Product>, f: Field, k: Seq<char>)
    requires
        !keys_of(ps, f).contains(k),
    ensures
        matching(ps, f, k) == Seq::<Product>::empty(),
        not_matching(ps, f, k) == ps,
    decreases ps.len(),
{
    reveal(Seq::filter);
    if ps.len() > 0 {
        let ps0 = ps.drop_last();
        assert(keys_of(ps, f).drop_last() =~= keys_of(ps0, f));
        assert(!keys_of(ps0, f).contains(k)) by {
            if keys_of(ps0, f).contains(k) {
                let i = choose|i: int| 0 <= i < keys_of(ps0, f).len() && keys_of(ps0, f)[i] == k;
                assert(keys_of(ps, f)[i] == k);
            }
        }
        lemma_absent_key(ps0, f, k);
        assert(keys_of(ps, f)[ps.len() - 1] != k);
        assert(ps0.push(ps.last()) =~= ps);
    }
}

/// The index of `products` under `f`, built position by position.
fn build_index(products: &Vec<Product>, f: Field) -> (r: Index)
    ensures
        r.wf(keys_of(products@, f)),
{
    let ghost keys = keys_of(products@, f);
    let mut idx = Index::new();
    let mut i: usize = 0;
    while i < products.len()
        invariant
            i <= products@.len(),
            keys == keys_of(products@, f),
            idx.wf(keys.take(i as int)),
        decreases products@.len() - i,
    {
        let key = lowercase(products[i].field(f).as_str());
        proof {
            assert(keys.take(i + 1) =~= keys.take(i as int).push(key@));
        }
        idx.insert(key, i, Ghost(keys.take(i as int)));
        i = i + 1;
    }
    assert(keys.take(i as int) =~= keys);
    idx
}

impl View for Catalog {
    type V = CatalogView;

    closed spec fn view(&self) -> CatalogView {
        CatalogView { products: self.products@, next_id: self.next_id }
    }
}

impl Catalog {
    /// The index the catalog keeps under `f`.
    pub closed spec fn index(&self, f: Field) -> Map<Seq<char>, Seq<usize>> {
        self.index_spec(f)@
    }

    closed spec fn index_spec(&self, f: Field) -> Index {
        match f {
            Field::Name => self.by_name,
            Field::Brand => self.by_brand,
            Field::Category => self.by_category,
        }
    }

    /// The products are valid and each index is the one they determine.
    pub closed spec fn wf(&self) -> bool {
        &&& valid_products(self.products@, self.next_id)
        &&& forall|f: Field| #[trigger] self.index_spec(f).wf(keys_of(self.products@, f))
    }

    /// What a well-formed catalog is: valid products, and indices that the
    /// products alone determine.
    pub proof fn lemma_wf(&self)
        requires
            self.wf(),
        ensures
            valid_products(self@.products, self@.next_id),
            forall|f: Field| #[trigger] self.index(f) == index_for(self@.products, f),
    {
        assert forall|f: Field| #[trigger] self.index(f) == index_for(self@.products, f) by {
            self.index_spec(f).lemma_view(keys_of(self.products@, f));
        }
    }

    fn index_ref(&self, f: Field) -> (r: &Index)
        ensures
            *r == self.index_spec(f),
    {
        match f {
            Field::Name => &self.by_name,
            Field::Brand => &self.by_brand,
            Field::Category => &self.by_category,
        }
    }

    /// An empty catalog; the first product added gets id 1.
    pub fn new() -> (r: Catalog)
        ensures
            r.wf(),
            r@.products == Seq::<Product>::empty(),
            r@.next_id == 1,
    {
        let r = Catalog {
            products: Vec::new(),
            next_id: 1,
            by_name: Index::new(),
            by_brand: Index::new(),
            by_category: Index::new(),
        };
        assert forall|f: Field| #[trigger] r.index_spec(f).wf(keys_of(r.products@, f)) by {
            assert(keys_of(r.products@, f) =~= Seq::<Seq<char>>::empty());
        }
        r
    }

    /// Recomputes every index from the product list.
    pub fn rebuild_indices(&mut self)
        requires
            valid_products(old(self)@.products, old(self)@.next_id),
        ensures
            final(self).wf(),
            final(self)@ == old(self)@,
    {
        self.by_name = build_index(&self.products, Field::Name);
        self.by_brand = build_index(&self.products, Field::Brand);
        self.by_category = build_index(&self.products, Field::Category);
        assert(forall|f: Field| #[trigger] self.index_spec(f).wf(keys_of(self.products@, f)));
    }

    /// Adds a product with the trimmed name, brand and category and the next
    /// id, and returns it.
    pub fn add(&mut self, name: &str, brand: &str, category: &str, price_cents: Option<u64>) -> (r:
        Result<Product, CatalogError>)
        requires
            old(self).wf(),
        ensures
            final(self).wf(),
            trim_of(name@).len() == 0 || trim_of(brand@).len() == 0 || trim_of(category@).len()
                == 0 ==> r == Err::<Product, CatalogError>(CatalogError::EmptyField),
            trim_of(name@).len() > 0 && trim_of(brand@).len() > 0 && trim_of(category@).len() > 0
                && (old(self)@.next_id == u64::MAX || old(self)@.products.len() == usize::MAX)
                ==> r == Err::<Product, CatalogError>(CatalogError::Full),
            r is Err ==> final(self)@ == old(self)@,
            trim_of(name@).len() > 0 && trim_of(brand@).len() > 0 && trim_of(category@).len() > 0
                && old(self)@.next_id < u64::MAX && old(self)@.products.len() < usize::MAX ==> {
                &&& r matches Ok(p)
                &&& p.id == old(self)@.next_id
                &&& p.name@ == trim_of(name@)
                &&& p.brand@ == trim_of(brand@)
                &&& p.category@ == trim_of(category@)
                &&& p.price_cents == price_cents
                &&& final(self)@.products == old(self)@.products.push(p)
                &&& final(self)@.next_id == old(self)@.next_id + 1
            },
    {
        let name = trimmed(name);
        let brand = trimmed(brand);
        let category = trimmed(category);
        if name.as_str().is_empty() || brand.as_str().is_empty() || category.as_str().is_empty() {
            return Err(CatalogError::EmptyField);
        }
        if self.next_id == u64::MAX || self.products.len() == usize::MAX {
            return Err(CatalogError::Full);
        }
        let pos = self.products.len();
        let p = Product { id: self.next_id, name, brand, category, price_cents };
        let kn = lowercase(p.name.as_str());
        let kb = lowercase(p.brand.as_str());
        let kc = lowercase(p.category.as_str());
        let ghost old_ps = self.products@;
        assert(self.index_spec(Field::Name).wf(keys_of(old_ps, Field::Name)));
        assert(self.index_spec(Field::Brand).wf(keys_of(old_ps, Field::Brand)));
        assert(self.index_spec(Field::Category).wf(keys_of(old_ps, Field::Category)));
        self.products.push(p.clone());
        self.next_id = self.next_id + 1;
        proof {
            assert(keys_of(self.products@, Field::Name) =~= keys_of(old_ps, Field::Name).push(kn@));
            assert(keys_of(self.products@, Field::Brand) =~= keys_of(old_ps, Field::Brand).push(kb@));
            assert(keys_of(self.products@, Field::Category) =~= keys_of(old_ps, Field::Category).push(kc@));
        }
        self.by_name.insert(kn, pos, Ghost(keys_of(old_ps, Field::Name)));
        self.by_brand.insert(kb, pos, Ghost(keys_of(old_ps, Field::Brand)));
        self.by_category.insert(kc, pos, Ghost(keys_of(old_ps, Field::Category)));
        proof {
            assert forall|f: Field| #[trigger] self.index_spec(f).wf(keys_of(self.products@, f)) by {
                match f {
                    Field::Name => {},
                    Field::Brand => {},
                    Field::Category => {},
                }
            }
            assert(valid_products(self.products@, self.next_id)) by {
                assert(self.products@.last() == p);
            }
        }
        Ok(p)
    }

    /// All products, in the order they were added.
    pub fn list_all(&self) -> (r: Vec<Product>)
        ensures
            r@ == self@.products,
    {
        let mut out: Vec<Product> = Vec::new();
        let mut i: usize = 0;
        while i < self.products.len()
            invariant
                i <= self.products@.len(),
                out@ == self.products@.take(i as int),
            decreases self.products@.len() - i,
        {
            out.push(self.products[i].clone());
            proof {
                assert(self.products@.take(i + 1) =~= self.products@.take(i as int).push(self.products@[i as int]));
            }
            i = i + 1;
        }
        assert(self.products@.take(i as int) =~= self.products@);
        out
    }

    /// The products whose field `f`, lowercased, equals `key` trimmed and
    /// lowercased, in catalog order; empty when there is none.
    pub fn find_by(&self, f: Field, key: &str) -> (r: Vec<Product>)
        requires
            self.wf(),
        ensures
            r@ == matching(self@.products, f, lower_of(trim_of(key@))),
    {
        let k = lookup_key(key);
        let idx = self.index_ref(f);
        let ghost ps = self.products@;
        let ghost keys = keys_of(ps, f);
        assert(idx.wf(keys));
        let mut out: Vec<Product> = Vec::new();
        match idx.find(&k) {
            None => {
                proof {
                    assert(!keys.contains(k@)) by {
                        if keys.contains(k@) {
                            let n = choose|n: int| 0 <= n < keys.len() && keys[n] == k@;
                            let j = choose|j: int| 0 <= j < idx.buckets@.len() && #[trigger] idx.buckets@[j].key@ == keys[n];
                        }
                    }
                    lemma_absent_key(ps, f, k@);
                }
                assert(out@ =~= matching(ps, f, k@));
            }
            Some(b) => {
                let positions = &idx.buckets[b].positions;
                let ghost m = matching(ps, f, k@);
                proof {
                    lemma_positions_match(ps, f, k@);
                    assert(positions@ == positions_for(keys, k@));
                    assert forall|a: int| 0 <= a < positions@.len() implies #[trigger] positions@[a] < ps.len()
                        && ps[positions@[a] as int] == m[a] by {
                        assert(positions_for(keys_of(ps, f), k@)[a] == positions@[a]);
                        assert(ps[positions_for(keys_of(ps, f), k@)[a] as int] == m[a]);
                    }
                }
                let mut j: usize = 0;
                while j < positions.len()
                    invariant
                        j <= positions@.len(),
                        ps == self.products@,
                        positions@.len() == m.len(),
                        forall|a: int| 0 <= a < positions@.len() ==> #[trigger] positions@[a] < ps.len()
                            && ps[positions@[a] as int] == m[a],
                        out@ == m.take(j as int),
                    decreases positions@.len() - j,
                {
                    let at = positions[j];
                    out.push(self.products[at].clone());
                    proof {
                        assert(m.take(j + 1) =~= m.take(j as int).push(m[j as int]));
                    }
                    j = j + 1;
                }
                assert(m.take(j as int) =~= m);
            }
        }
        out
    }

    /// Removes every product whose name equals `name`, trimmed, without
    /// regard to case. Returns whether any was removed.
    pub fn remove_by_name(&mut self, name: &str) -> (r: bool)
        requires
            old(self).wf(),
        ensures
            final(self).wf(),
            r == exists|i: int|
                0 <= i < old(self)@.products.len() && key_of(#[trigger] old(self)@.products[i], Field::Name)
                    == lower_of(trim_of(name@)),
            final(self)@.products == not_matching(
                old(self)@.products,
                Field::Name,
                lower_of(trim_of(name@)),
            ),
            final(self)@.next_id == old(self)@.next_id,
    {
        let k = lookup_key(name);
        let ghost ps = self.products@;
        let ghost start = self@;
        let ghost keys = keys_of(ps, Field::Name);
        assert(self.index_spec(Field::Name).wf(keys));
        match self.by_name.find(&k) {
            None => {
                proof {
                    assert(!keys.contains(k@)) by {
                        if keys.contains(k@) {
                            let n = choose|n: int| 0 <= n < keys.len() && keys[n] == k@;
                            let j = choose|j: int| 0 <= j < self.by_name.buckets@.len() && #[trigger] self.by_name.buckets@[j].key@ == keys[n];
                        }
                    }
                    lemma_absent_key(ps, Field::Name, k@);
                    assert forall|i: int| 0 <= i < ps.len() implies key_of(#[trigger] ps[i], Field::Name) != k@ by {
                        assert(keys[i] == key_of(ps[i], Field::Name));
                    }
                    assert(start.products == ps);
                }
                false
            },
            Some(b) => {
                proof {
                    assert(keys.contains(self.by_name.buckets@[b as int].key@));
                    let n = choose|n: int| 0 <= n < keys.len() && keys[n] == k@;
                    assert(key_of(ps[n], Field::Name) == k@);
                    assert(key_of(start.products[n], Field::Name) == k@);
                }
                let mut kept: Vec<Product> = Vec::new();
                let mut i: usize = 0;
                while i < self.products.len()
                    invariant
                        i <= ps.len(),
                        ps == self.products@,
                        valid_products(ps, self.next_id),
                        kept@ == not_matching(ps.take(i as int), Field::Name, k@),
                        kept@.len() <= i,
                        forall|a: int, c: int| 0 <= a < c < kept@.len() ==> kept@[a].id != kept@[c].id,
                        forall|a: int| 0 <= a < kept@.len() ==> (#[trigger] kept@[a]).id < self.next_id
                            && has_fields(kept@[a]),
                        forall|a: int| 0 <= a < kept@.len() ==> exists|m: int|
                            0 <= m < i && (#[trigger] kept@[a]).id == (#[trigger] ps[m]).id,
                    decreases ps.len() - i,
                {
                    let key = lowercase(self.products[i].name.as_str());
                    let ghost before = kept@;
                    if !(key == k) {
                        kept.push(self.products[i].clone());
                        proof {
                            assert forall|a: int| 0 <= a < before.len() implies kept@[a].id != ps[i as int].id by {
                                let m = choose|m: int| 0 <= m < i && (#[trigger] before[a]).id == (#[trigger] ps[m]).id;
                            }
                            assert forall|a: int| 0 <= a < kept@.len() implies exists|m: int|
                                0 <= m < i + 1 && (#[trigger] kept@[a]).id == (#[trigger] ps[m]).id by {
                                if a < before.len() {
                                    let m = choose|m: int| 0 <= m < i && (#[trigger] before[a]).id == (#[trigger] ps[m]).id;
                                    assert(kept@[a] == before[a]);
                                } else {
                                    assert(kept@[a] == ps[i as int]);
                                }
                            }
                        }
                    }
                    proof {
                        reveal(Seq::filter);
                        assert(ps.take(i + 1).drop_last() =~= ps.take(i as int));
                        assert(ps.take(i + 1).last() == ps[i as int]);
                    }
                    i = i + 1;
                }
                assert(ps.take(i as int) =~= ps);
                self.products = kept;
                self.rebuild_indices();
                true
            },
        }
    }

    /// A catalog of `products`, in their order, whose next id is one past
    /// the largest of theirs (1 when there is none).
    pub fn from_products(products: Vec<Product>) -> (r: Result<Catalog, LoadError>)
        ensures
            !all_have_fields(products@) ==> r == Err::<Catalog, LoadError>(LoadError::EmptyField),
            all_have_fields(products@) && !distinct_ids(products@) ==> r == Err::<Catalog, LoadError>(
                LoadError::DuplicateId,
            ),
            all_have_fields(products@) && distinct_ids(products@) && !loadable(products@) ==> r
                == Err::<Catalog, LoadError>(LoadError::IdOverflow),
            loadable(products@) ==> {
                &&& r matches Ok(c)
                &&& c.wf()
                &&& c@.products == products@
                &&& forall|i: int| 0 <= i < products@.len() ==> (#[trigger] products@[i]).id < c@.next_id
                &&& products@.len() == 0 ==> c@.next_id == 1
                &&& products@.len() > 0 ==> exists|i: int|
                    0 <= i < products@.len() && (#[trigger] products@[i]).id + 1 == c@.next_id
            },
    {
        let ghost ps = products@;
        let n = products.len();
        let mut i: usize = 0;
        while i < n
            invariant
                n == ps.len(),
                i <= n,
                ps == products@,
                forall|j: int| 0 <= j < i ==> has_fields(#[trigger] ps[j]),
            decreases n - i,
        {
            let p = &products[i];
            if p.name.as_str().is_empty() || p.brand.as_str().is_empty() || p.category.as_str().is_empty() {
                return Err(LoadError::EmptyField);
            }
            i = i + 1;
        }
        let mut i: usize = 0;
        while i < n
            invariant
                n == ps.len(),
                i <= n,
                ps == products@,
                all_have_fields(ps),
                forall|a: int, b: int| 0 <= a < b < i ==> ps[a].id != ps[b].id,
            decreases n - i,
        {
            let mut j: usize = 0;
            while j < i
                invariant
                    n == ps.len(),
                    j <= i < n,
                    ps == products@,
                    all_have_fields(ps),
                    forall|a: int| 0 <= a < j ==> ps[a].id != ps[i as int].id,
                decreases i - j,
            {
                if products[j].id == products[i].id {
                    return Err(LoadError::DuplicateId);
                }
                j = j + 1;
            }
            i = i + 1;
        }
        let mut top: u64 = 0;
        let mut i: usize = 0;
        while i < n
            invariant
                n == ps.len(),
                i <= n,
                ps == products@,
                all_have_fields(ps),
                distinct_ids(ps),
                top < u64::MAX,
                forall|j: int| 0 <= j < i ==> (#[trigger] ps[j]).id <= top && ps[j].id < u64::MAX,
                i == 0 ==> top == 0,
                i > 0 ==> exists|j: int| 0 <= j < i && (#[trigger] ps[j]).id == top,
            decreases n - i,
        {
            let id = products[i].id;
            if id == u64::MAX {
                return Err(LoadError::IdOverflow);
            }
            if i == 0 || id > top {
                top = id;
            }
            i = i + 1;
        }
        let mut c = Catalog {
            products,
            next_id: top + 1,
            by_name: Index::new(),
            by_brand: Index::new(),
            by_category: Index::new(),
        };
        c.rebuild_indices();
        Ok(c)
    }

    /// The id the next added product gets.
    pub fn next_id(&self) -> (r: u64)
        ensures
            r == self@.next_id,
    {
        self.next_id
    }

    /// The number of products.
    pub fn len(&self) -> (r: usize)
        ensures
            r == self@.products.len(),
    {
        self.products.len()
    }

    /// The products named `key`, compared without regard to case.
    pub fn find_by_name(&self, key: &str) -> (r: Vec<Product>)
        requires
            self.wf(),
        ensures
            r@ == matching(self@.products, Field::Name, lower_of(trim_of(key@))),
    {
        self.find_by(Field::Name, key)
    }

    /// The products of brand `key`, compared without regard to case.
    pub fn find_by_brand(&self, key: &str) -> (r: Vec<Product>)
        requires
            self.wf(),
        ensures
            r@ == matching(self@.products, Field::Brand, lower_of(trim_of(key@))),
    {
        self.find_by(Field::Brand, key)
    }

    /// The products of category `key`, compared without regard to case.
    pub fn find_by_category(&self, key: &str) -> (r: Vec<Product>)
        requires
            self.wf(),
        ensures
            r@ == matching(self@.products, Field::Category, lower_of(trim_of(key@))),
    {
        self.find_by(Field::Category, key)
    }
}

} // verus!
