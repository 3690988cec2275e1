//! Product records and the fields they are indexed by.
use vstd::prelude::*;

use crate::text::lower_of;

verus! {

/// One product of the catalog. A price, when known, is held in cents.
#[derive(Debug, PartialEq, Eq)]
pub struct Product {
    pub id: u64,
    pub name: String,
    pub brand: String,
    pub category: String,
    pub price_cents: Option<u64>,
}

impl Clone for Product {
    fn clone(&self) -> (r: Self)
        ensures
            r == *self,
    {
        Product {
            id: self.id,
            name: self.name.clone(),
            brand: self.brand.clone(),
            category: self.category.clone(),
            price_cents: self.price_cents,
        }
    }
}

/// The text fields a catalog keeps an index over.
#[derive(Clone, Copy, Debug, PartialEq, Eq, Structural)]
pub enum Field {
    Name,
    Brand,
    Category,
}

/// The text of field `f` of `p`.
pub open spec fn field_text(p: Product, f: Field) -> Seq<char> {
    match f {
        Field::Name => p.name@,
        Field::Brand => p.brand@,
        Field::Category => p.category@,
    }
}

/// The index key of `p` under field `f`: the field's text, lowercased.
pub open spec fn key_of(p: Product, f: Field) -> Seq<char> {
    lower_of(field_text(p, f))
}

/// The index keys of each product, position by position.
pub open spec fn keys_of(ps: Seq<Product>, f: Field) -> Seq<Seq<char>> {
    ps.map_values(|p: Product| key_of(p, f))
}

/// The products of `ps` whose key under `f` is `k`, in their order.
pub open spec fn matching(ps: Seq<Product>, f: Field, k: Seq<char>) -> Seq<Product> {
    ps.filter(|p: Product| key_of(p, f) == k)
}

/// The products of `ps` whose key under `f` is not `k`, in their order.
pub open spec fn not_matching(ps: Seq<Product>, f: Field, k: Seq<char>) -> Seq<Product> {
    ps.filter(|p: Product| key_of(p, f) != k)
}

impl Product {
    /// The text of the given field.
    pub fn field(&self, f: Field) -> (r: &String)
        ensures
            r@ == field_text(*self, f),
    {
        match f {
            Field::Name => &self.name,
            Field::Brand => &self.brand,
            Field::Category => &self.category,
        }
    }
}

} // verus!
