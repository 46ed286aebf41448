use vstd::prelude::*;
use crate::parse::{lemma_child_smaller, tree_size, Tree};
use crate::spec::lang::SpecSymbol;
use crate::spec::{lemma_short_child, malformed, short_lexemes, GenError};

verus! {

/// Region Type: the kinds of region a specification is made of.
#[derive(PartialEq, Eq, Structural, Hash, Clone, Copy, Debug)]
pub enum RegionType {
    Injectable,
    Ignorable,
    Alphabet,
    CDFA,
    Grammar,
}

impl RegionType {
    /// The name of the variant.
    pub open spec fn label(self) -> Seq<char> {
        match self {
            RegionType::Injectable => "Injectable"@,
            RegionType::Ignorable => "Ignorable"@,
            RegionType::Alphabet => "Alphabet"@,
            RegionType::CDFA => "CDFA"@,
            RegionType::Grammar => "Grammar"@,
        }
    }

    /// Returns the name of the region type.
    pub fn name(&self) -> (r: String)
        ensures
            r@ == self.label(),
    {
        match self {
            RegionType::Injectable => String::from_str("Injectable"),
            RegionType::Ignorable => String::from_str("Ignorable"),
            RegionType::Alphabet => String::from_str("Alphabet"),
            RegionType::CDFA => String::from_str("CDFA"),
            RegionType::Grammar => String::from_str("Grammar"),
        }
    }
}

/// The region type of a region whose inner node has kind `kind`, if it names one.
pub open spec fn region_type_of(kind: Option<SpecSymbol>) -> Option<RegionType> {
    match kind {
        Some(SpecSymbol::Injectable) => Some(RegionType::Injectable),
        Some(SpecSymbol::Ignorable) => Some(RegionType::Ignorable),
        Some(SpecSymbol::Alphabet) => Some(RegionType::Alphabet),
        Some(SpecSymbol::CDFA) => Some(RegionType::CDFA),
        Some(SpecSymbol::Grammar) => Some(RegionType::Grammar),
        _ => None,
    }
}

/// The `Region` nodes under the `Regions` node `regions`, leftmost first.
pub open spec fn region_nodes(regions: Tree<SpecSymbol>) -> Seq<Tree<SpecSymbol>>
    decreases tree_size(regions),
{
    if regions.children@.len() == 0 {
        Seq::empty()
    } else if regions.children@.len() == 2 {
        proof {
            lemma_child_smaller(regions, 0);
        }
        region_nodes(regions.children@[0]).push(regions.children@.last())
    } else {
        seq![regions.children@.last()]
    }
}

/// Whether `region` is a `Region` node: one with an inner node that names a region type.
pub open spec fn region_shaped(region: Tree<SpecSymbol>) -> bool {
    region.children@.len() > 0 && region_type_of(region.children@[0].lhs.spec_kind()) is Some
}

/// Whether `regions` is a chain of `Regions` nodes, each with a `Region` node as its last child.
pub open spec fn regions_shaped(regions: Tree<SpecSymbol>) -> bool
    decreases tree_size(regions),
{
    &&& regions.children@.len() > 0
    &&& region_shaped(regions.children@.last())
    &&& regions.children@.len() == 2 ==> {
        proof {
            lemma_child_smaller(regions, 0);
        }
        regions_shaped(regions.children@[0])
    }
}

/// Whether `found` lists the `Region` nodes `regions`, in order, each with its type.
pub open spec fn lists_regions(found: Seq<(&Tree<SpecSymbol>, RegionType)>, regions: Seq<Tree<SpecSymbol>>) -> bool {
    &&& found.len() == regions.len()
    &&& forall|i: int|
        0 <= i < found.len() ==> *(#[trigger] found[i]).0 == regions[i] && Some(found[i].1)
            == region_type_of(regions[i].children@[0].lhs.spec_kind())
}

/// Returns the type of the region whose inner node is `inner`, if it names one.
fn type_from_node(inner: &Tree<SpecSymbol>) -> (t: Option<RegionType>)
    ensures
        t == region_type_of(inner.lhs.spec_kind()),
{
    match inner.lhs.kind_opt() {
        Some(SpecSymbol::Injectable) => Some(RegionType::Injectable),
        Some(SpecSymbol::Ignorable) => Some(RegionType::Ignorable),
        Some(SpecSymbol::Alphabet) => Some(RegionType::Alphabet),
        Some(SpecSymbol::CDFA) => Some(RegionType::CDFA),
        Some(SpecSymbol::Grammar) => Some(RegionType::Grammar),
        _ => None,
    }
}

/// Traverses the specification regions under `regions_node`, returning the `Region` node and
/// type of each region, in source order, or an error if a node of the chain is not shaped as
/// one.
pub fn traverse<'t>(regions_node: &'t Tree<SpecSymbol>) -> (res: Result<
    Vec<(&'t Tree<SpecSymbol>, RegionType)>,
    GenError,
>)
    ensures
        res is Ok <==> regions_shaped(*regions_node),
        res matches Err(e) ==> e is MalformedErr,
        res matches Ok(found) ==> lists_regions(found@, region_nodes(*regions_node)),
        res matches Ok(found) ==> (short_lexemes(*regions_node) ==> forall|i: int|
            0 <= i < found@.len() ==> short_lexemes(*(#[trigger] found@[i]).0)),
{
    let mut found: Vec<(&'t Tree<SpecSymbol>, RegionType)> = Vec::new();
    traverse_regions_node(regions_node, &mut found)?;
    proof {
        assert(found@.skip(0) =~= found@);
    }
    Ok(found)
}

/// Appends the regions under `regions_node` to `found`, leftmost first, or returns an error if
/// a node of the chain is not shaped as one.
fn traverse_regions_node<'t>(
    regions_node: &'t Tree<SpecSymbol>,
    found: &mut Vec<(&'t Tree<SpecSymbol>, RegionType)>,
) -> (res: Result<(), GenError>)
    ensures
        res is Ok <==> regions_shaped(*regions_node),
        res matches Err(e) ==> e is MalformedErr,
        res is Ok ==> final(found)@.len() >= old(found)@.len() && final(found)@.take(
            old(found)@.len() as int,
        ) == old(found)@ && lists_regions(
            final(found)@.skip(old(found)@.len() as int),
            region_nodes(*regions_node),
        ),
        res is Ok && short_lexemes(*regions_node) ==> forall|i: int|
            old(found)@.len() <= i < final(found)@.len() ==> short_lexemes(*(#[trigger] final(found)@[i]).0),
    decreases tree_size(*regions_node),
{
    let n = regions_node.children.len();
    if n == 0 {
        return Err(malformed());
    }
    let ghost before = found@;
    if n == 2 {
        proof {
            lemma_child_smaller(*regions_node, 0);
        }
        traverse_regions_node(regions_node.get_child(0), found)?;
    }
    let ghost mid = found@;
    let region_node = regions_node.get_child(n - 1);
    if region_node.children.len() == 0 {
        return Err(malformed());
    }
    let inner = region_node.get_child(0);
    match type_from_node(inner) {
        Some(t) => {
            found.push((region_node, t));
            proof {
                let regions = region_nodes(*regions_node);
                let added = found@.skip(before.len() as int);
                assert(found@.take(before.len() as int) =~= before);
                if n == 2 {
                    let earlier = region_nodes(regions_node.children@[0]);
                    assert(mid.skip(before.len() as int).len() == earlier.len());
                    assert forall|i: int| 0 <= i < added.len() implies *(#[trigger] added[i]).0
                        == regions[i] && Some(added[i].1) == region_type_of(
                        regions[i].children@[0].lhs.spec_kind(),
                    ) by {
                        if i < earlier.len() {
                            assert(added[i] == mid.skip(before.len() as int)[i]);
                        }
                    }
                } else {
                    assert(added.len() == 1);
                }
                if short_lexemes(*regions_node) {
                    lemma_short_child(*regions_node, n - 1);
                    if n == 2 {
                        lemma_short_child(*regions_node, 0);
                    }
                    assert forall|i: int| before.len() <= i < found@.len() implies short_lexemes(
                        *(#[trigger] found@[i]).0,
                    ) by {
                        if i < mid.len() {
                            assert(found@[i] == mid[i]);
                        }
                    }
                }
            }
            Ok(())
        },
        None => Err(malformed()),
    }
}

/// Returns the first required region type (a CDFA region, then a grammar region) that no
/// region of `found` has, if any.
pub fn missing_required(found: &Vec<(&Tree<SpecSymbol>, RegionType)>) -> (r: Option<RegionType>)
    ensures
        r == if !has_region(found@, RegionType::CDFA) {
            Some(RegionType::CDFA)
        } else if !has_region(found@, RegionType::Grammar) {
            Some(RegionType::Grammar)
        } else {
            None
        },
{
    if !contains_region(found, RegionType::CDFA) {
        Some(RegionType::CDFA)
    } else if !contains_region(found, RegionType::Grammar) {
        Some(RegionType::Grammar)
    } else {
        None
    }
}

/// Whether some region of `found` has type `t`.
pub open spec fn has_region(found: Seq<(&Tree<SpecSymbol>, RegionType)>, t: RegionType) -> bool {
    exists|i: int| 0 <= i < found.len() && (#[trigger] found[i]).1 == t
}

/// Whether some region of `regions` has type `t`.
pub open spec fn has_region_type(regions: Seq<Tree<SpecSymbol>>, t: RegionType) -> bool {
    exists|i: int| 0 <= i < regions.len() && region_type_of(
        (#[trigger] regions[i]).children@[0].lhs.spec_kind(),
    ) == Some(t)
}

/// The regions listed in `found` have the types of the regions of `regions`.
pub proof fn lemma_listed_types(
    found: Seq<(&Tree<SpecSymbol>, RegionType)>,
    regions: Seq<Tree<SpecSymbol>>,
    t: RegionType,
)
    requires
        lists_regions(found, regions),
    ensures
        has_region(found, t) <==> has_region_type(regions, t),
{
    if has_region(found, t) {
        let i = choose|i: int| 0 <= i < found.len() && (#[trigger] found[i]).1 == t;
        assert(region_type_of(regions[i].children@[0].lhs.spec_kind()) == Some(t));
    }
    if has_region_type(regions, t) {
        let i = choose|i: int| 0 <= i < regions.len() && region_type_of(
            (#[trigger] regions[i]).children@[0].lhs.spec_kind(),
        ) == Some(t);
        assert(found[i].1 == t);
    }
}

/// Returns true if some region of `found` has type `t`.
fn contains_region(found: &Vec<(&Tree<SpecSymbol>, RegionType)>, t: RegionType) -> (b: bool)
    ensures
        b == has_region(found@, t),
{
    let mut i: usize = 0;
    while i < found.len()
        invariant
            i <= found@.len(),
            forall|j: int| 0 <= j < i ==> found@[j].1 != t,
        decreases found@.len() - i,
    {
        if found[i].1 == t {
            return true;
        }
        i += 1;
    }
    false
}

/// Error: an error in the regions of a specification: a required region is missing.
#[derive(Debug)]
pub enum Error {
    MissingRequired(RegionType),
}

/// Whether `m` describes the region error `e`.
pub open spec fn region_message(e: Error, m: Seq<char>) -> bool {
    match e {
        Error::MissingRequired(t) => m == "Missing required region: '"@ + t.label() + "'"@,
    }
}

impl Error {
    /// Returns a description of the error.
    pub fn message(&self) -> (m: String)
        ensures
            region_message(*self, m@),
    {
        match self {
            Error::MissingRequired(t) => {
                let mut m = String::from_str("Missing required region: '");
                let name = t.name();
                m.append(name.as_str());
                m.append("'");
                m
            },
        }
    }
}

} // verus!
