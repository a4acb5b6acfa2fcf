use crate::system::value::{Value, ValueModel};
use vstd::prelude::*;
use vstd::std_specs::convert::FromSpecImpl;

verus! {

/// Struct for containing a name/value pair in either a stable or transient state.
///
/// An attribute is a value with a name and an owner. The owner is identified by an integer id.
///
/// An attribute can be in either two states, stable or transient. Stable means that the
/// transient property has no value. Transient means that the transient property holds a
/// pending name/value pair, which `commit` turns into the attribute's own name and value.
#[derive(Debug)]
pub struct Attribute {
    /// An id that points to the owner of this attribute, likely an entity id.
    pub id: u32,
    /// The name of this attribute, identifies the purpose of the value.
    pub name: String,
    /// The value of this attribute.
    pub value: Value,
    /// The transient portion of the attribute: a pending name/value pair that can change
    /// independently of the attribute, until it is committed.
    pub transient: Option<(String, Value)>,
}

/// The mathematical model of an [`Attribute`].
pub struct AttributeModel {
    pub id: u32,
    pub name: Seq<char>,
    pub value: ValueModel,
    pub transient: Option<(Seq<char>, ValueModel)>,
}

impl AttributeModel {
    /// No change is pending.
    pub open spec fn is_stable(self) -> bool {
        self.transient is None
    }

    /// The attribute with `(name, value)` as its pending change.
    pub open spec fn edited(self, name: Seq<char>, value: ValueModel) -> AttributeModel {
        AttributeModel { transient: Some((name, value)), ..self }
    }

    /// The attribute once its pending change, if any, has become its name and value.
    pub open spec fn committed(self) -> AttributeModel {
        match self.transient {
            Some((name, value)) => AttributeModel { id: self.id, name, value, transient: None },
            None => self,
        }
    }

    /// The attribute with its pending change, if any, set back to its own name and value.
    pub open spec fn reset(self) -> AttributeModel {
        match self.transient {
            Some(_) => AttributeModel { transient: Some((self.name, self.value)), ..self },
            None => self,
        }
    }

    /// The attribute with its pending value replaced by `value`, under the pending name if
    /// there is one and its own name otherwise.
    pub open spec fn edited_as(self, value: ValueModel) -> AttributeModel {
        match self.transient {
            Some((name, _)) => self.edited(name, value),
            None => self.edited(self.name, value),
        }
    }
}

impl View for Attribute {
    type V = AttributeModel;

    open spec fn view(&self) -> AttributeModel {
        AttributeModel {
            id: self.id,
            name: self.name@,
            value: self.value@,
            transient: match self.transient {
                Some((name, value)) => Some((name@, value@)),
                None => None,
            },
        }
    }
}

impl Clone for Attribute {
    fn clone(&self) -> (r: Self)
        ensures
            r@ == self@,
    {
        let transient = match &self.transient {
            Some((name, value)) => Some((name.clone(), value.clone())),
            None => None,
        };
        Attribute { id: self.id, name: self.name.clone(), value: self.value.clone(), transient }
    }
}

impl Default for Attribute {
    /// Owner 0, an empty name, an empty value, and no pending change.
    fn default() -> (r: Self)
        ensures
            r@ == (AttributeModel {
                id: 0,
                name: Seq::empty(),
                value: ValueModel::Empty,
                transient: None,
            }),
    {
        Attribute { id: 0, name: String::new(), value: Value::Empty, transient: None }
    }
}

impl<'a> From<&'a mut Attribute> for (String, Value) {
    /// The name and value of the attribute, copied.
    fn from(a: &'a mut Attribute) -> (r: (String, Value))
        ensures
            r.0@ == old(a).name@,
            r.1@ == old(a).value@,
            *final(a) == *old(a),
    {
        (a.name.clone(), a.value.clone())
    }
}

impl<'a> FromSpecImpl<&'a mut Attribute> for (String, Value) {
    /// The copy holds the same characters and the same value model; two strings with the same
    /// characters are not known to be the same value, so `from` is not said to return exactly this.
    open spec fn obeys_from_spec() -> bool {
        false
    }

    open spec fn from_spec(a: &'a mut Attribute) -> (String, Value) {
        choose|r: (String, Value)| r.0@ == a.name@ && r.1@ == a.value@
    }
}

impl Attribute {
    /// A stable attribute owned by `id`.
    pub fn new(id: u32, name: &str, value: Value) -> (r: Attribute)
        ensures
            r@ == (AttributeModel { id, name: name@, value: value@, transient: None }),
    {
        Attribute { id, name: name.to_owned(), value, transient: None }
    }

    /// Returns `true` when this attribute is in a `stable` state: no change is pending.
    pub fn is_stable(&self) -> (r: bool)
        ensures
            r == self@.is_stable(),
    {
        self.transient.is_none()
    }

    /// Returns the transient part of this attribute.
    pub fn transient(&self) -> (r: Option<&(String, Value)>)
        ensures
            r is None <==> self.transient is None,
            r matches Some(t) ==> self.transient == Some(*t),
    {
        self.transient.as_ref()
    }

    /// Removes the transient part of this attribute and returns it.
    pub fn take_transient(&mut self) -> (r: Option<(String, Value)>)
        ensures
            r == old(self).transient,
            final(self)@ == (AttributeModel { transient: None, ..old(self)@ }),
    {
        self.transient.take()
    }

    /// Makes the pending change, if any, the name and value of this attribute.
    pub fn commit(&mut self)
        ensures
            final(self)@ == old(self)@.committed(),
    {
        let pending = self.transient.take();
        if let Some((name, value)) = pending {
            self.name = name;
            self.value = value;
        }
    }

    /// Starts editing this attribute from its own name and value.
    pub fn edit_self(&mut self)
        ensures
            final(self)@ == old(self)@.edited(old(self)@.name, old(self)@.value),
            final(self)@.id == old(self)@.id,
            final(self)@.name == old(self)@.name,
            final(self)@.value == old(self)@.value,
    {
        let init: (String, Value) = From::from(&mut *self);
        self.edit(init);
    }

    /// Sets the pending change of this attribute.
    pub fn edit(&mut self, edit: (String, Value))
        ensures
            final(self)@ == old(self)@.edited(edit.0@, edit.1@),
            final(self)@.id == old(self)@.id,
            final(self)@.name == old(self)@.name,
            final(self)@.value == old(self)@.value,
    {
        self.transient = Some(edit);
    }

    /// Sets the pending value, keeping the pending name, or taking this attribute's name
    /// when no change is pending.
    pub fn edit_as(&mut self, edit: Value)
        ensures
            final(self)@ == old(self)@.edited_as(edit@),
            final(self)@.id == old(self)@.id,
            final(self)@.name == old(self)@.name,
            final(self)@.value == old(self)@.value,
            final(self)@.transient == Some(
                (
                    match old(self)@.transient {
                        Some((name, _)) => name,
                        None => old(self)@.name,
                    },
                    edit@,
                ),
            ),
    {
        let name = match &self.transient {
            Some((name, _)) => name.clone(),
            None => self.name.clone(),
        };
        self.transient = Some((name, edit));
    }

    /// Sets a pending change back to this attribute's name and value; a stable attribute
    /// stays as it is.
    pub fn reset_editing(&mut self)
        ensures
            final(self)@ == old(self)@.reset(),
            final(self)@.id == old(self)@.id,
            final(self)@.name == old(self)@.name,
            final(self)@.value == old(self)@.value,
    {
        if self.transient.is_some() {
            self.transient = Some((self.name.clone(), self.value.clone()));
        }
    }

    /// Sets the id/owner of this attribute.
    pub fn set_id(&mut self, id: u32)
        ensures
            final(self)@ == (AttributeModel { id, ..old(self)@ }),
    {
        self.id = id;
    }

    /// Reads the name of this attribute.
    pub fn name(&self) -> (r: &str)
        ensures
            r@ == self@.name,
    {
        self.name.as_str()
    }

    /// Reads the current value of this attribute.
    pub fn value(&self) -> (r: &Value)
        ensures
            *r == self.value,
    {
        &self.value
    }

    /// Gives write access to the current value of this attribute.
    pub fn value_mut(&mut self) -> (r: &mut Value)
        ensures
            *r == old(self).value,
            *final(self) == (Attribute { value: *final(r), ..*old(self) }),
    {
        &mut self.value
    }

    /// Reads the current id of this attribute, likely the entity that owns it.
    pub fn id(&self) -> (r: u32)
        ensures
            r == self.id,
    {
        self.id
    }
}

/// Committing an attribute that was just edited to `(name, value)` gives it that name and
/// value, under the same owner, with nothing left pending.
pub proof fn lemma_edit_then_commit(a: AttributeModel, name: Seq<char>, value: ValueModel)
    ensures
        a.edited(name, value).committed() == (AttributeModel {
            id: a.id,
            name,
            value,
            transient: None,
        }),
{
}

/// Editing touches only the pending change: `edit`, `edit_as` and `reset_editing` keep the
/// attribute's owner, name and value. `edit_as` sets the pending value and keeps the pending
/// name, or takes the attribute's own name when nothing was pending; `reset_editing` sets a
/// pending change back to the attribute's own name and value.
pub proof fn lemma_editing_keeps_name_and_value(a: AttributeModel, name: Seq<char>, value: ValueModel)
    ensures
        a.edited(name, value).id == a.id,
        a.edited(name, value).name == a.name,
        a.edited(name, value).value == a.value,
        a.edited(name, value).transient == Some((name, value)),
        a.edited_as(value).id == a.id,
        a.edited_as(value).name == a.name,
        a.edited_as(value).value == a.value,
        a.edited_as(value).transient == Some(
            (
                match a.transient {
                    Some((n, _)) => n,
                    None => a.name,
                },
                value,
            ),
        ),
        a.reset().id == a.id,
        a.reset().name == a.name,
        a.reset().value == a.value,
        a.reset().transient == match a.transient {
            Some(_) => Some((a.name, a.value)),
            None => None,
        },
{
}

/// After a commit the attribute is stable.
pub proof fn lemma_committed_is_stable(a: AttributeModel)
    ensures
        a.committed().is_stable(),
{
}

/// Committing a stable attribute changes nothing; so committing twice is committing once.
pub proof fn lemma_commit_stable_unchanged(a: AttributeModel)
    ensures
        a.is_stable() ==> a.committed() == a,
        a.committed().committed() == a.committed(),
{
}

/// Resetting the pending change and then committing leaves the attribute's id, name and value
/// as they were, with nothing pending.
pub proof fn lemma_reset_then_commit(a: AttributeModel)
    ensures
        a.reset().committed() == (AttributeModel { transient: None, ..a }),
{
}

} // verus!
