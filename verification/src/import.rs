//! Importing an existing descriptor: the text is parsed and checked
//! against the configured network on every edit; confirming hands the
//! parsed policy on.

use vstd::prelude::*;
use crate::codec::{parse_descriptor, spec_parse_descriptor};
use crate::policy::DescriptorPolicy;
use crate::types::{FormValue, Network};

verus! {

/// What the entry's validation concludes: nothing while the entry is
/// blank; the policy when it parses and belongs to a compatible network;
/// and otherwise which of the two checks failed.
pub open spec fn spec_import_state(s: Seq<char>, net: Network) -> (Option<
    crate::policy::PolicyView
>, bool, bool) {
    if s.len() == 0 {
        (None, true, false)
    } else {
        match spec_parse_descriptor(s) {
            None => (None, false, false),
            Some(p) => if p.network.spec_compatible_with(net) {
                (Some(p), true, false)
            } else {
                (None, false, true)
            },
        }
    }
}

/// The import step: the descriptor entry, whether it is acceptable, and
/// whether it failed only for being of the wrong network.
pub struct ImportDescriptor {
    pub network: Network,
    pub imported_descriptor: FormValue,
    pub wrong_network: bool,
    pub error: Option<String>,
}

impl ImportDescriptor {
    pub fn new(network: Network) -> (r: ImportDescriptor)
        ensures
            r.network == network,
            r.imported_descriptor.value@ == Seq::<char>::empty(),
            r.imported_descriptor.valid,
            !r.wrong_network,
            r.error is None,
    {
        ImportDescriptor {
            network,
            imported_descriptor: FormValue::new(),
            wrong_network: false,
            error: None,
        }
    }

    /// Validate the current entry: blank passes silently, a parse failure
    /// marks the entry invalid, a parse of the wrong network additionally
    /// says so; only a compatible parse yields the policy.
    pub fn check_descriptor(&mut self) -> (r: Option<DescriptorPolicy>)
        ensures
            final(self).network == old(self).network,
            final(self).imported_descriptor.value == old(self).imported_descriptor.value,
            final(self).error == old(self).error,
            ({
                let st = spec_import_state(old(self).imported_descriptor.value@, old(self).network);
                &&& (match r {
                    Some(p) => st.0 == Some(p@),
                    None => st.0 is None,
                })
                &&& final(self).imported_descriptor.valid == st.1
                &&& final(self).wrong_network == st.2
            }),
    {
        if self.imported_descriptor.value.as_str().unicode_len() == 0 {
            self.wrong_network = false;
            self.imported_descriptor.valid = true;
            return None;
        }
        match parse_descriptor(self.imported_descriptor.value.as_str()) {
            Some(desc) => {
                if desc.network.compatible_with(self.network) {
                    self.imported_descriptor.valid = true;
                    self.wrong_network = false;
                    Some(desc)
                } else {
                    self.imported_descriptor.valid = false;
                    self.wrong_network = true;
                    None
                }
            }
            None => {
                self.imported_descriptor.valid = false;
                self.wrong_network = false;
                None
            }
        }
    }

    /// The entry was edited: store it and revalidate.
    pub fn update(&mut self, desc: String)
        ensures
            final(self).network == old(self).network,
            final(self).imported_descriptor.value@ == desc@,
            ({
                let st = spec_import_state(desc@, old(self).network);
                &&& final(self).imported_descriptor.valid == st.1
                &&& final(self).wrong_network == st.2
            }),
    {
        self.imported_descriptor.value = desc;
        let _ = self.check_descriptor();
    }

    /// Confirm the step: the parsed policy when the entry is acceptable.
    pub fn apply(&mut self) -> (r: Option<DescriptorPolicy>)
        ensures
            ({
                let st = spec_import_state(old(self).imported_descriptor.value@, old(self).network);
                match r {
                    Some(p) => st.0 == Some(p@),
                    None => st.0 is None,
                }
            }),
    {
        self.check_descriptor()
    }
}

} // verus!
