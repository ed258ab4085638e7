use vstd::prelude::*;

verus! {

/// The mathematical value of a signature: the two name sequences.
pub ghost struct SigView {
    pub app_name: Seq<char>,
    pub title: Seq<char>,
}

/// The best-effort stable identity of a window across invocations:
/// the owning application's name paired with the window title.  Not
/// guaranteed unique; duplicates are told apart by discovery order.
#[derive(Debug)]
pub struct Signature {
    pub app_name: String,
    pub title: String,
}

impl View for Signature {
    type V = SigView;

    open spec fn view(&self) -> SigView {
        SigView { app_name: self.app_name@, title: self.title@ }
    }
}

impl PartialEq for Signature {
    /// Signature equality compares the two name strings; it is the
    /// cross-invocation notion of identity, distinct from the
    /// handle identity that only lives inside one invocation.
    fn eq(&self, other: &Self) -> bool {
        self.app_name == other.app_name && self.title == other.title
    }
}

impl vstd::std_specs::cmp::PartialEqSpecImpl for Signature {
    open spec fn obeys_eq_spec() -> bool {
        true
    }

    open spec fn eq_spec(&self, other: &Self) -> bool {
        self@ == other@
    }
}

impl Signature {
    pub fn new(app_name: String, title: String) -> (r: Signature)
        ensures
            r@.app_name == app_name@,
            r@.title == title@,
    {
        Signature { app_name, title }
    }

    /// A fresh signature with the same two names.
    pub fn duplicate(&self) -> (r: Signature)
        ensures
            r@ == self@,
    {
        Signature { app_name: self.app_name.clone(), title: self.title.clone() }
    }
}

} // verus!
