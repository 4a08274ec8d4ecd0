//! What the engine's reflection data says of classes and their properties.

use crate::text_map::TextMap;
use crate::variant::{Properties, Variant, VariantView};
use vstd::prelude::*;

verus! {

/// What reflection says of a property.
#[derive(Clone, Copy, Debug)]
pub struct PropertyInfo {
    /// Hidden, read-only or write-only.
    pub restricted: bool,
    /// Written to place files.
    pub serializes: bool,
    /// A reference to an instance.
    pub reference: bool,
}

/// What reflection says of a class.
#[derive(Debug)]
pub struct ClassInfo {
    pub superclass: Option<String>,
    pub service: bool,
    pub properties: TextMap<PropertyInfo>,
    pub defaults: Properties,
}

/// The classes of the engine by name.
#[derive(Debug)]
pub struct Reflection {
    pub classes: TextMap<ClassInfo>,
}

impl Reflection {
    pub open spec fn has(self, class: Seq<char>) -> bool {
        self.classes@.dom().contains(class)
    }

    /// Whether a class is an engine service.
    pub open spec fn service(self, class: Seq<char>) -> bool {
        self.has(class) && self.classes@[class].service
    }

    /// The default of a property, at the class or at the nearest ancestor that
    /// has one, among `steps` ancestors.
    pub open spec fn default_within(self, class: Seq<char>, property: Seq<char>, steps: nat) -> Option<VariantView>
        decreases steps,
    {
        if !self.has(class) {
            None
        } else if self.classes@[class].defaults.deep().dom().contains(property) {
            Some(self.classes@[class].defaults.deep()[property])
        } else if steps == 0 {
            None
        } else {
            match self.classes@[class].superclass {
                Some(superclass) => self.default_within(superclass@, property, (steps - 1) as nat),
                None => None,
            }
        }
    }

    /// The default of a property. No chain of superclasses is longer than the
    /// number of classes.
    pub open spec fn default_of(self, class: Seq<char>, property: Seq<char>) -> Option<VariantView> {
        self.default_within(class, property, self.classes.keys().len())
    }

    /// What reflection says of a property, at the class or the nearest ancestor
    /// that has it.
    pub open spec fn property_within(self, class: Seq<char>, property: Seq<char>, steps: nat) -> Option<PropertyInfo>
        decreases steps,
    {
        if !self.has(class) {
            None
        } else if self.classes@[class].properties@.dom().contains(property) {
            Some(self.classes@[class].properties@[property])
        } else if steps == 0 {
            None
        } else {
            match self.classes@[class].superclass {
                Some(superclass) => self.property_within(superclass@, property, (steps - 1) as nat),
                None => None,
            }
        }
    }

    pub open spec fn property_of(self, class: Seq<char>, property: Seq<char>) -> Option<PropertyInfo> {
        self.property_within(class, property, self.classes.keys().len())
    }

    /// Whether a class is an engine service.
    pub fn is_service(&self, class: &str) -> (service: bool)
        ensures
            service == self.service(class@),
    {
        match self.classes.get(class) {
            Some(info) => info.service,
            None => false,
        }
    }

    fn find_default<'a>(&'a self, class: &str, property: &str, steps: usize) -> (value: Option<&'a Variant>)
        ensures
            match self.default_within(class@, property@, steps as nat) {
                Some(expected) => value matches Some(found) && found@ == expected,
                None => value is None,
            },
        decreases steps,
    {
        match self.classes.get(class) {
            None => None,
            Some(info) => {
                proof {
                    assert(info.defaults.deep().dom() =~= info.defaults@.dom());
                }
                match info.defaults.get(property) {
                    Some(value) => Some(value),
                    None => {
                        if steps == 0 {
                            return None;
                        }
                        match &info.superclass {
                            Some(superclass) => self.find_default(superclass.as_str(), property, steps - 1),
                            None => None,
                        }
                    },
                }
            },
        }
    }

    /// The default of a property.
    pub fn reflection_default<'a>(&'a self, class: &str, property: &str) -> (value: Option<&'a Variant>)
        ensures
            match self.default_of(class@, property@) {
                Some(expected) => value matches Some(found) && found@ == expected,
                None => value is None,
            },
    {
        self.find_default(class, property, self.classes.len())
    }

    fn find_property(&self, class: &str, property: &str, steps: usize) -> (info: Option<PropertyInfo>)
        ensures
            info == self.property_within(class@, property@, steps as nat),
        decreases steps,
    {
        match self.classes.get(class) {
            None => None,
            Some(info) => match info.properties.get(property) {
                Some(found) => Some(*found),
                None => {
                    if steps == 0 {
                        return None;
                    }
                    match &info.superclass {
                        Some(superclass) => self.find_property(superclass.as_str(), property, steps - 1),
                        None => None,
                    }
                },
            },
        }
    }

    /// What reflection says of a property.
    pub fn property_info(&self, class: &str, property: &str) -> (info: Option<PropertyInfo>)
        ensures
            info == self.property_of(class@, property@),
    {
        self.find_property(class, property, self.classes.len())
    }
}

/// Why a property may not be written in source.
#[derive(Clone, Copy, Debug, PartialEq, Eq, Structural)]
pub enum PropertyFault {
    Managed,
    UnknownClass,
    UnknownProperty,
    Restricted,
    NotSerializable,
}

/// Properties that the hierarchy or the runtime manages.
pub open spec fn managed_property(property: Seq<char>) -> bool {
    property == "Name"@ || property == "Parent"@ || property == "ClassName"@ || property == "Source"@ || property
        == "UniqueId"@
}

/// Why a property may not be written in source, if it may not.
pub open spec fn property_fault(reflection: Reflection, class: Seq<char>, property: Seq<char>) -> Option<
    PropertyFault,
> {
    if managed_property(property) {
        Some(PropertyFault::Managed)
    } else if !reflection.has(class) {
        Some(PropertyFault::UnknownClass)
    } else {
        match reflection.property_of(class, property) {
            None => Some(PropertyFault::UnknownProperty),
            Some(info) => if property != "Tags"@ && info.restricted {
                Some(PropertyFault::Restricted)
            } else if !info.serializes {
                Some(PropertyFault::NotSerializable)
            } else {
                None
            },
        }
    }
}

/// Checks that a property may be written in source.
pub fn validate_property(reflection: &Reflection, class: &str, property: &str) -> (checked: Result<
    (),
    PropertyFault,
>)
    ensures
        match property_fault(*reflection, class@, property@) {
            Some(fault) => checked == Err::<(), PropertyFault>(fault),
            None => checked is Ok,
        },
{
    if property.eq("Name") || property.eq("Parent") || property.eq("ClassName") || property.eq("Source")
        || property.eq("UniqueId") {
        return Err(PropertyFault::Managed);
    }
    if !reflection.classes.contains_key(class) {
        return Err(PropertyFault::UnknownClass);
    }
    match reflection.property_info(class, property) {
        None => Err(PropertyFault::UnknownProperty),
        Some(info) => {
            if !property.eq("Tags") && info.restricted {
                return Err(PropertyFault::Restricted);
            }
            if !info.serializes {
                return Err(PropertyFault::NotSerializable);
            }
            Ok(())
        },
    }
}

} // verus!
