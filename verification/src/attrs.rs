//! Attribute reflection on objects: `hasattr`, `setattr` and `fields`.
//! An object holds its fields, methods and accessors under keys; a
//! property `p` is read through the key `__getter__p` and written through
//! `__setter__p`.
use vstd::prelude::*;
use vstd::string::*;
use crate::error::{RuntimeError, runtime_error};
use crate::classes::{ClassDef, ClassMember, MemberKind, class_of, names_view, find_class};

verus! {

/// The key of the getter of property `name`.
pub open spec fn getter_key(name: Seq<char>) -> Seq<char> {
    "__getter__"@ + name
}

/// The key of the setter of property `name`.
pub open spec fn setter_key(name: Seq<char>) -> Seq<char> {
    "__setter__"@ + name
}

/// Whether `x` is among `keys`.
fn key_present(keys: &[String], x: &String) -> (r: bool)
    ensures
        r == names_view(keys@).contains(x@),
{
    let mut j: usize = 0;
    while j < keys.len()
        invariant
            j <= keys@.len(),
            forall|t: int| 0 <= t < j ==> (#[trigger] keys@[t])@ != x@,
        decreases keys@.len() - j,
    {
        if keys[j] == *x {
            proof {
                assert(names_view(keys@)[j as int] == x@);
            }
            return true;
        }
        j += 1;
    }
    proof {
        if names_view(keys@).contains(x@) {
            let t = choose|t: int| 0 <= t < keys@.len() && names_view(keys@)[t] == x@;
            assert(keys@[t]@ == x@);
        }
    }
    false
}

/// `prefix` followed by `name`.
fn prefixed(prefix: &str, name: &str) -> (r: String)
    ensures
        r@ == prefix@ + name@,
{
    let mut s = String::from_str(prefix);
    s.append(name);
    s
}

/// `hasattr(object, name)` for an object holding `keys`: the attribute is
/// there, or a getter for it is.
pub fn has_object_attribute(keys: &[String], name: &str) -> (r: bool)
    ensures
        r == (names_view(keys@).contains(name@) || names_view(keys@).contains(getter_key(name@))),
{
    proof {
        reveal_strlit("__getter__");
    }
    let plain = String::from_str(name);
    let getter = prefixed("__getter__", name);
    key_present(keys, &plain) || key_present(keys, &getter)
}

/// Whether a function named `function_name`, found under the key `name`,
/// is the getter of property `name`, to be called rather than returned.
pub fn is_getter_for(function_name: &str, name: &str) -> (r: bool)
    ensures
        r == (function_name@ == getter_key(name@)),
{
    proof {
        reveal_strlit("__getter__");
    }
    String::from_str(function_name) == prefixed("__getter__", name)
}

/// How `setattr` writes an attribute.
#[derive(PartialEq, Eq, Structural, Clone, Copy, Debug)]
pub enum SetAttr {
    /// Call the property's setter with the value.
    CallSetter,
    /// Store the value under the attribute's key.
    Store,
}

/// The error for writing an attribute an object does not declare.
pub open spec fn undeclared_message(name: Seq<char>) -> Seq<char> {
    "attribute '"@ + name + "' not declared"@
}

/// `setattr(object, name, value)` on an object holding `keys`: a frozen
/// object is an error, so is an attribute it does not hold; a property
/// with a setter is written through it, any other attribute stored.
pub fn setattr_plan(frozen: bool, keys: &[String], name: &str) -> (r: Result<SetAttr, RuntimeError>)
    ensures
        frozen ==> r is Err && r->Err_0.message@ == "cannot mutate frozen object"@,
        !frozen && !names_view(keys@).contains(name@) ==> r is Err && r->Err_0.message@ == undeclared_message(name@),
        !frozen && names_view(keys@).contains(name@) ==> r == Ok::<SetAttr, RuntimeError>(
            if names_view(keys@).contains(setter_key(name@)) { SetAttr::CallSetter } else { SetAttr::Store }),
{
    proof {
        reveal_strlit("__setter__");
    }
    if frozen {
        return Err(runtime_error("cannot mutate frozen object"));
    }
    let plain = String::from_str(name);
    if !key_present(keys, &plain) {
        let mut message = String::from_str("attribute '");
        message.append(name);
        message.append("' not declared");
        return Err(RuntimeError { message });
    }
    let setter = prefixed("__setter__", name);
    if key_present(keys, &setter) {
        Ok(SetAttr::CallSetter)
    } else {
        Ok(SetAttr::Store)
    }
}

/// A member that `fields` lists for a class: a field, method, class
/// method, factory, getter or setter.
pub open spec fn listed_member(m: ClassMember) -> bool {
    m.kind == MemberKind::Field || m.kind == MemberKind::Method || m.kind == MemberKind::ClassMethod
        || m.kind == MemberKind::Factory || m.kind == MemberKind::Getter || m.kind == MemberKind::Setter
}

/// The names of the listed members of `body`, in order.
pub open spec fn listed_names(body: Seq<ClassMember>) -> Seq<Seq<char>>
    decreases body.len(),
{
    if body.len() == 0 {
        Seq::empty()
    } else if listed_member(body.last()) {
        listed_names(body.drop_last()).push(body.last().name@)
    } else {
        listed_names(body.drop_last())
    }
}

/// `fields(SomeClass)`: the names of the members the class itself declares
/// (its own fields, methods, class methods, factories, getters and
/// setters, in order); nothing for a name that is not a class.
pub fn class_member_names(classes: &[ClassDef], class_name: &str) -> (r: Vec<String>)
    ensures
        names_view(r@) == match class_of(classes@, class_name@) {
            Some(cl) => listed_names(cl.body@),
            None => Seq::empty(),
        },
{
    let mut out: Vec<String> = Vec::new();
    let name = String::from_str(class_name);
    match find_class(classes, &name) {
        None => {
            proof {
                assert(names_view(out@) =~= Seq::<Seq<char>>::empty());
            }
            out
        },
        Some(c) => {
            let body = &classes[c].body;
            let mut j: usize = 0;
            proof {
                assert(body@.take(0) =~= Seq::<ClassMember>::empty());
                assert(names_view(out@) =~= Seq::<Seq<char>>::empty());
            }
            while j < body.len()
                invariant
                    j <= body@.len(),
                    names_view(out@) == listed_names(body@.take(j as int)),
                decreases body@.len() - j,
            {
                proof {
                    assert(body@.take(j + 1).drop_last() =~= body@.take(j as int));
                    assert(body@.take(j + 1).last() == body@[j as int]);
                }
                let kind = body[j].kind;
                if kind == MemberKind::Field || kind == MemberKind::Method || kind == MemberKind::ClassMethod
                    || kind == MemberKind::Factory || kind == MemberKind::Getter || kind == MemberKind::Setter {
                    let ghost before = out@;
                    out.push(body[j].name.clone());
                    proof {
                        assert(names_view(out@) =~= names_view(before).push(body@[j as int].name@));
                    }
                }
                j += 1;
            }
            proof {
                assert(body@.take(body@.len() as int) =~= body@);
            }
            out
        },
    }
}

} // verus!
