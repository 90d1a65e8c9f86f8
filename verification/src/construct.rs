//! Building instances: a class without a factory takes its arguments as
//! its fields in layout order; an object built by a class factory as
//! `Constructed` has its positional `field_N` slots renamed to the
//! declared field names of the class, and takes the methods of the traits
//! the class adopts.
use vstd::prelude::*;
use vstd::string::*;
use crate::classes::{ClassDef, BaseType, class_index, class_of, layout_walk, names_view, find_class, class_field_layout};
use crate::repr::{decimal_text, append_decimal};
use crate::error::RuntimeError;

verus! {

/// Where a declared field of a constructed object takes its value from.
#[derive(PartialEq, Eq, Structural, Clone, Copy, Debug)]
pub enum SlotFill {
    /// The positional slot `field_N` for the field's position `N`.
    Positional,
    /// An entry already under the field's own name.
    Named,
    /// Neither is there; the field is left out.
    Absent,
}

/// The key of the positional slot for field `i`.
pub open spec fn slot_key(i: int) -> Seq<char> {
    "field_"@ + decimal_text(i as nat)
}

/// Where field `i` of `declared` takes its value from, given the keys the
/// object holds.
pub open spec fn fill_of(declared: Seq<Seq<char>>, keys: Seq<Seq<char>>, i: int) -> SlotFill {
    if keys.contains(slot_key(i)) {
        SlotFill::Positional
    } else if keys.contains(declared[i]) {
        SlotFill::Named
    } else {
        SlotFill::Absent
    }
}

/// The named bases of a class that are declared traits and that the class
/// does not opt out of, in the order of its bases.
pub open spec fn adopted_traits(bases: Seq<BaseType>, without: Seq<Seq<char>>, traits: Seq<Seq<char>>) -> Seq<Seq<char>>
    decreases bases.len(),
{
    if bases.len() == 0 {
        Seq::empty()
    } else {
        let before = adopted_traits(bases.drop_last(), without, traits);
        match bases.last() {
            BaseType::Named(n) => if !without.contains(n@) && traits.contains(n@) { before.push(n@) } else { before },
            BaseType::Other => before,
        }
    }
}

/// How a constructed object of a class is normalised: the class's fields
/// in layout order, where each takes its value from, and the traits whose
/// methods it takes.
pub struct ConstructedPlan {
    pub fields: Vec<String>,
    pub fills: Vec<SlotFill>,
    pub traits: Vec<String>,
}

/// Whether `x` is among `v`.
fn holds(v: &[String], x: &String) -> (r: bool)
    ensures
        r == names_view(v@).contains(x@),
{
    let mut j: usize = 0;
    while j < v.len()
        invariant
            j <= v@.len(),
            forall|t: int| 0 <= t < j ==> (#[trigger] v@[t])@ != x@,
        decreases v@.len() - j,
    {
        if v[j] == *x {
            proof {
                assert(names_view(v@)[j as int] == x@);
            }
            return true;
        }
        j += 1;
    }
    proof {
        if names_view(v@).contains(x@) {
            let t = choose|t: int| 0 <= t < v@.len() && names_view(v@)[t] == x@;
            assert(v@[t]@ == x@);
        }
    }
    false
}

/// The key of the positional slot for field `i`.
fn slot_name(i: usize) -> (r: String)
    ensures
        r@ == slot_key(i as int),
{
    let mut s = String::from_str("field_");
    proof {
        reveal_strlit("field_");
    }
    append_decimal(&mut s, i as u64);
    s
}

/// Where each declared field takes its value from in an object holding
/// `keys`: its positional slot `field_N` first, then an entry under its own
/// name.
pub fn slot_fills(declared: &[String], keys: &[String]) -> (r: Vec<SlotFill>)
    ensures
        r@.len() == declared@.len(),
        forall|i: int| 0 <= i < declared@.len() ==> #[trigger] r@[i] == fill_of(names_view(declared@), names_view(keys@), i),
{
    let mut fills: Vec<SlotFill> = Vec::new();
    let mut i: usize = 0;
    while i < declared.len()
        invariant
            i <= declared@.len(),
            fills@.len() == i,
            forall|j: int| 0 <= j < i ==> #[trigger] fills@[j] == fill_of(names_view(declared@), names_view(keys@), j),
        decreases declared@.len() - i,
    {
        let slot = slot_name(i);
        let fill = if holds(keys, &slot) {
            SlotFill::Positional
        } else if holds(keys, &declared[i]) {
            SlotFill::Named
        } else {
            SlotFill::Absent
        };
        proof {
            assert(names_view(declared@)[i as int] == declared@[i as int]@);
        }
        fills.push(fill);
        i += 1;
    }
    fills
}

/// The traits among the bases of the class at position `i` whose methods
/// its objects take.
fn class_traits(classes: &[ClassDef], i: usize, traits: &[String]) -> (r: Vec<String>)
    requires
        i < classes@.len(),
    ensures
        names_view(r@) == adopted_traits(classes@[i as int].bases@, names_view(classes@[i as int].without_traits@), names_view(traits@)),
{
    let class = &classes[i];
    let ghost without = names_view(class.without_traits@);
    let mut out: Vec<String> = Vec::new();
    let mut k: usize = 0;
    proof {
        assert(class.bases@.take(0) =~= Seq::<BaseType>::empty());
        assert(names_view(out@) =~= Seq::<Seq<char>>::empty());
    }
    while k < class.bases.len()
        invariant
            i < classes@.len(),
            *class == classes@[i as int],
            without == names_view(class.without_traits@),
            k <= class.bases@.len(),
            names_view(out@) == adopted_traits(class.bases@.take(k as int), without, names_view(traits@)),
        decreases class.bases@.len() - k,
    {
        proof {
            assert(class.bases@.take(k + 1).drop_last() =~= class.bases@.take(k as int));
            assert(class.bases@.take(k + 1).last() == class.bases@[k as int]);
        }
        match &class.bases[k] {
            BaseType::Named(name) => {
                let opted_out = holds(&class.without_traits, name);
                let declared = holds(traits, name);
                if !opted_out && declared {
                    let ghost before = out@;
                    out.push(name.clone());
                    proof {
                        assert(names_view(out@) =~= names_view(before).push(name@));
                    }
                }
            },
            BaseType::Other => {},
        }
        k += 1;
    }
    proof {
        assert(class.bases@.take(class.bases@.len() as int) =~= class.bases@);
    }
    out
}

/// How an object that the factory of `class_name` returned is normalised.
/// Only an object of the placeholder class `Constructed`, returned for a
/// declared class, is: its fields are the class's fields in layout order,
/// each filled as `slot_fills` says from the `keys` it holds, and it takes
/// the methods of the adopted traits among `traits`. Any other object is
/// kept as it is (`None`).
pub fn constructed_plan(
    classes: &[ClassDef],
    class_name: &str,
    constructed: &str,
    keys: &[String],
    traits: &[String],
) -> (r: Option<ConstructedPlan>)
    requires
        exists|fuel: nat| #[trigger] layout_walk(classes@, class_name@, fuel) is Some,
    ensures
        constructed@ != "Constructed"@ || class_index(classes@, class_name@) is None ==> r is None,
        constructed@ == "Constructed"@ && class_index(classes@, class_name@) is Some ==> (r matches Some(plan) && {
            let fuel = choose|fuel: nat| #[trigger] layout_walk(classes@, class_name@, fuel) is Some;
            let cl = class_of(classes@, class_name@)->Some_0;
            &&& names_view(plan.fields@) == layout_walk(classes@, class_name@, fuel)->Some_0
            &&& plan.fills@.len() == plan.fields@.len()
            &&& forall|i: int| 0 <= i < plan.fields@.len()
                ==> #[trigger] plan.fills@[i] == fill_of(names_view(plan.fields@), names_view(keys@), i)
            &&& names_view(plan.traits@) == adopted_traits(cl.bases@, names_view(cl.without_traits@), names_view(traits@))
        }),
{
    proof {
        reveal_strlit("Constructed");
    }
    if String::from_str(constructed) != String::from_str("Constructed") {
        return None;
    }
    let name = String::from_str(class_name);
    match find_class(classes, &name) {
        None => None,
        Some(i) => {
            let fields = class_field_layout(classes, class_name);
            let fills = slot_fills(&fields, keys);
            let adopted = class_traits(classes, i, traits);
            Some(ConstructedPlan { fields, fills, traits: adopted })
        },
    }
}

/// The error for instantiating a class that is not declared.
pub open spec fn class_not_found_message(class_name: Seq<char>) -> Seq<char> {
    "class '"@ + class_name + "' not found"@
}

/// Calling a class that has no factory, with `arg_count` arguments: its
/// fields in layout order, each of the first ones paired with the argument
/// at its position; fields past the last argument stay unset and
/// arguments past the last field are ignored. A class that is not
/// declared is an error.
pub fn instance_fields(classes: &[ClassDef], class_name: &str, arg_count: usize)
    -> (r: Result<(Vec<String>, usize), RuntimeError>)
    requires
        exists|fuel: nat| #[trigger] layout_walk(classes@, class_name@, fuel) is Some,
    ensures
        class_index(classes@, class_name@) is None ==> r is Err && r->Err_0.message@ == class_not_found_message(class_name@),
        class_index(classes@, class_name@) is Some ==> (r matches Ok((fields, filled)) && {
            let fuel = choose|fuel: nat| #[trigger] layout_walk(classes@, class_name@, fuel) is Some;
            &&& names_view(fields@) == layout_walk(classes@, class_name@, fuel)->Some_0
            &&& filled == (if arg_count < fields@.len() { arg_count as int } else { fields@.len() as int })
        }),
{
    let name = String::from_str(class_name);
    if find_class(classes, &name).is_none() {
        let mut message = String::from_str("class '");
        message.append(class_name);
        message.append("' not found");
        return Err(RuntimeError { message });
    }
    let fields = class_field_layout(classes, class_name);
    let filled = if arg_count < fields.len() { arg_count } else { fields.len() };
    Ok((fields, filled))
}

} // verus!
