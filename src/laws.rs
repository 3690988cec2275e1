//! Properties that relate several catalog operations.
use vstd::prelude::*;

use crate::catalog::{loadable, Catalog};
use crate::product::{key_of, matching, not_matching, Field, Product};
use crate::text::{lower_of, trim_of};

verus! {

/// A product that `add` accepted under `name` is then found by that name:
/// looking the name up returns what it returned before, followed by the new
/// product, whose id no earlier product has.
pub proof fn lemma_add_then_find(before: Catalog, after: Catalog, name: Seq<char>, p: Product)
    requires
        before.wf(),
        p.name@ == trim_of(name),
        p.id == before@.next_id,
        after@.products == before@.products.push(p),
    ensures
        matching(after@.products, Field::Name, lower_of(trim_of(name))) == matching(
            before@.products,
            Field::Name,
            lower_of(trim_of(name)),
        ).push(p),
        forall|i: int|
            0 <= i < before@.products.len() ==> (#[trigger] before@.products[i]).id != p.id,
{
    before.lemma_wf();
    reveal(Seq::filter);
    assert(after@.products.drop_last() =~= before@.products);
    assert(key_of(p, Field::Name) == lower_of(trim_of(name)));
}

/// Once `remove_by_name` has removed the products named `name`, that name
/// finds nothing, no product left has the id of a removed one, and no index
/// holds a position of a product with such an id.
pub proof fn lemma_remove_then_find(before: Catalog, after: Catalog, name: Seq<char>)
    requires
        before.wf(),
        after.wf(),
        after@.products == not_matching(before@.products, Field::Name, lower_of(trim_of(name))),
    ensures
        matching(after@.products, Field::Name, lower_of(trim_of(name))) == Seq::<Product>::empty(),
        forall|i: int, j: int|
            0 <= i < before@.products.len() && key_of(before@.products[i], Field::Name) == lower_of(
                trim_of(name),
            ) && 0 <= j < after@.products.len() ==> (#[trigger] after@.products[j]).id
                != (#[trigger] before@.products[i]).id,
        forall|f: Field, key: Seq<char>, a: int, i: int|
            #![trigger after.index(f)[key][a], before@.products[i]]
            after.index(f).dom().contains(key) && 0 <= a < after.index(f)[key].len() && 0 <= i
                < before@.products.len() && key_of(before@.products[i], Field::Name) == lower_of(
                trim_of(name),
            ) ==> {
                &&& after.index(f)[key][a] < after@.products.len()
                &&& after@.products[after.index(f)[key][a] as int].id != before@.products[i].id
            },
{
    broadcast use vstd::seq_lib::group_filter_ensures;
    broadcast use vstd::seq::Seq::lemma_filter_contains_rev;

    let k = lower_of(trim_of(name));
    let ps = before@.products;
    let qs = after@.products;
    before.lemma_wf();
    after.lemma_wf();
    assert forall|i: int, j: int|
        0 <= i < ps.len() && key_of(ps[i], Field::Name) == k && 0 <= j < qs.len() implies (
    #[trigger] qs[j]).id != (#[trigger] ps[i]).id by {
        assert(key_of(qs[j], Field::Name) != k);
        assert(qs.contains(qs[j]));
        assert(ps.contains(qs[j]));
        let m = choose|m: int| 0 <= m < ps.len() && ps[m] == qs[j];
        assert(m != i);
    }
    assert(!crate::product::keys_of(qs, Field::Name).contains(k)) by {
        if crate::product::keys_of(qs, Field::Name).contains(k) {
            let j = choose|j: int| 0 <= j < qs.len() && crate::product::keys_of(qs, Field::Name)[j] == k;
            assert(key_of(qs[j], Field::Name) != k);
        }
    }
    crate::catalog::lemma_absent_key(qs, Field::Name, k);
    assert forall|f: Field, key: Seq<char>, a: int, i: int|
        #![trigger after.index(f)[key][a], before@.products[i]]
        after.index(f).dom().contains(key) && 0 <= a < after.index(f)[key].len() && 0 <= i
            < ps.len() && key_of(ps[i], Field::Name) == k implies {
        &&& after.index(f)[key][a] < qs.len()
        &&& qs[after.index(f)[key][a] as int].id != ps[i].id
    } by {
        crate::catalog::lemma_positions_match(qs, f, key);
    }
}

/// The indices depend on the product list alone: two well-formed catalogs
/// with the same products, whether their indices were rebuilt or kept up to
/// date by successive adds, hold the same keys with the same positions.
pub proof fn lemma_indices_follow_products(a: Catalog, b: Catalog)
    requires
        a.wf(),
        b.wf(),
        a@.products == b@.products,
    ensures
        forall|f: Field| #[trigger] a.index(f) == b.index(f),
{
    a.lemma_wf();
    b.lemma_wf();
}

/// The product list of a well-formed catalog is one that
/// `Catalog::from_products` accepts, so listing the products and loading
/// them again reproduces them.
pub proof fn lemma_products_reload(c: Catalog)
    requires
        c.wf(),
    ensures
        loadable(c@.products),
{
    c.lemma_wf();
}

} // verus!
