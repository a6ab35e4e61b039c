//! Host classes exposed to scripts. A realm takes a definition as it is and
//! looks only at where it is to be installed.

use vstd::prelude::*;

verus! {

/// Where a host class is installed: its namespace and its name.
pub type JsProxyModel = (Seq<Seq<char>>, Seq<char>);

pub open spec fn names_view(names: Seq<String>) -> Seq<Seq<char>> {
    Seq::new(names.len(), |i: int| names[i]@)
}

/// The definition of a host class.
#[derive(Debug)]
pub struct JsProxy {
    pub namespace: Vec<String>,
    pub class_name: String,
}

impl View for JsProxy {
    type V = JsProxyModel;

    open spec fn view(&self) -> JsProxyModel {
        (names_view(self.namespace@), self.class_name@)
    }
}

impl JsProxy {
    pub fn new(namespace: Vec<String>, class_name: &str) -> (proxy: JsProxy)
        ensures
            proxy@ == (names_view(namespace@), class_name@),
    {
        JsProxy { namespace, class_name: class_name.to_owned() }
    }
}

/// An opaque reference to an instance of an installed host class, by which
/// events are sent to it.
#[derive(Clone, Copy, Debug, PartialEq, Eq, Structural)]
pub struct JsProxyHandle {
    pub id: usize,
}

} // verus!
