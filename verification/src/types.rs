//! The values the model is made of: declared resources, the user's target,
//! and the failures the library reports.

use vstd::prelude::*;

verus! {

/// One declaration found in configuration text: a leaf resource, or a module call.
#[derive(Debug, PartialEq, Eq)]
pub struct Resource {
    /// Kind of the resource; empty for a module call.
    pub resource_type: String,
    /// Local name of the block.
    pub name: String,
    /// Whether the entry is a module call.
    pub is_module: bool,
}

/// A `Resource` as a mathematical value.
pub struct ResourceView {
    pub resource_type: Seq<char>,
    pub name: Seq<char>,
    pub is_module: bool,
}

impl View for Resource {
    type V = ResourceView;

    open spec fn view(&self) -> ResourceView {
        ResourceView {
            resource_type: self.resource_type@,
            name: self.name@,
            is_module: self.is_module,
        }
    }
}

impl Clone for Resource {
    fn clone(&self) -> (out: Self)
        ensures
            out@ == self@,
    {
        Resource {
            resource_type: self.resource_type.clone(),
            name: self.name.clone(),
            is_module: self.is_module,
        }
    }
}

/// The address under which the infrastructure tool knows a resource:
/// `module.<name>` for a module call, `<type>.<name>` otherwise.
pub open spec fn address_of(r: ResourceView) -> Seq<char> {
    if r.is_module {
        "module."@ + r.name
    } else {
        r.resource_type + "."@ + r.name
    }
}

impl Resource {
    /// A leaf resource of the given type and name.
    pub fn new(resource_type: &str, name: &str) -> (out: Resource)
        ensures
            out@ == (ResourceView { resource_type: resource_type@, name: name@, is_module: false }),
    {
        Resource {
            resource_type: resource_type.to_owned(),
            name: name.to_owned(),
            is_module: false,
        }
    }

    /// A module call of the given name.
    pub fn module(name: &str) -> (out: Resource)
        ensures
            out@ == (ResourceView {
                resource_type: Seq::<char>::empty(),
                name: name@,
                is_module: true,
            }),
    {
        Resource { resource_type: String::new(), name: name.to_owned(), is_module: true }
    }

    /// The resource's address.
    pub fn address(&self) -> (out: String)
        ensures
            out@ == address_of(self@),
    {
        let mut out = String::new();
        if self.is_module {
            out.append("module.");
            out.append(self.name.as_str());
            assert(out@ =~= address_of(self@));
        } else {
            out.append(self.resource_type.as_str());
            out.append(".");
            out.append(self.name.as_str());
            assert(out@ =~= address_of(self@));
        }
        out
    }
}

/// What the user picked: one file, one module, or one resource.
#[derive(Debug, PartialEq, Eq)]
pub enum Target {
    File(String),
    Module(String),
    Resource(String, String),
}

/// A `Target` as a mathematical value.
pub enum TargetView {
    File(Seq<char>),
    Module(Seq<char>),
    Resource(Seq<char>, Seq<char>),
}

impl View for Target {
    type V = TargetView;

    open spec fn view(&self) -> TargetView {
        match self {
            Target::File(path) => TargetView::File(path@),
            Target::Module(name) => TargetView::Module(name@),
            Target::Resource(resource_type, name) => TargetView::Resource(resource_type@, name@),
        }
    }
}

impl Clone for Target {
    fn clone(&self) -> (out: Self)
        ensures
            out@ == self@,
    {
        match self {
            Target::File(path) => Target::File(path.clone()),
            Target::Module(name) => Target::Module(name.clone()),
            Target::Resource(resource_type, name) => Target::Resource(
                resource_type.clone(),
                name.clone(),
            ),
        }
    }
}

/// The failures the library reports.
#[derive(Debug, Clone, Copy, PartialEq, Eq, Structural)]
pub enum TfocusError {
    /// No configuration file exists anywhere under the scanned root.
    NoTerraformFiles,
    /// A selection payload is in none of the known encodings.
    InvalidTargetSelection,
}

impl TfocusError {
    /// A sentence for the operator.
    pub fn message(&self) -> (out: String)
        ensures
            out@ == match *self {
                TfocusError::NoTerraformFiles => "No Terraform files found"@,
                TfocusError::InvalidTargetSelection => "Invalid target selection"@,
            },
    {
        match self {
            TfocusError::NoTerraformFiles => "No Terraform files found".to_owned(),
            TfocusError::InvalidTargetSelection => "Invalid target selection".to_owned(),
        }
    }
}

} // verus!
