//! The virtual machines that a test configuration names.
use vstd::prelude::*;
use vstd::string::StringExecFns;

verus! {

/// The hypervisor that runs a virtual machine.
#[derive(Debug, Clone, Copy, PartialEq, Eq, Structural)]
pub enum VmType {
    Qemu,
    Tart,
    Utm,
}

/// How to run one virtual machine.
#[derive(Debug, Clone)]
pub struct VmConfig {
    pub vm_type: VmType,
    pub image_path: String,
}

/// The virtual machines of a configuration, by name.
pub struct Config {
    pub vms: Vec<(String, VmConfig)>,
}

/// No virtual machine of the configuration has the requested name.
#[derive(Debug, Clone)]
pub struct VmConfigNotFound {
    pub name: String,
}

impl VmConfigNotFound {
    /// A sentence that names the missing machine.
    pub fn message(&self) -> (r: String)
        ensures
            r@ == "Could not find config: "@ + self.name@,
    {
        let s = String::from_str("Could not find config: ");
        s.concat(self.name.as_str())
    }
}

/// Whether `i` is the first position of `vms` whose name is `name`.
pub open spec fn is_first_named(vms: Seq<(String, VmConfig)>, name: Seq<char>, i: int) -> bool {
    0 <= i < vms.len() && vms[i].0@ == name && forall|j: int| 0 <= j < i ==> vms[j].0@ != name
}

impl Config {
    /// The first virtual machine named `name`.
    pub fn get_vm(&self, name: &str) -> (r: Option<&VmConfig>)
        ensures
            r is None <==> forall|i: int| 0 <= i < self.vms@.len() ==> self.vms@[i].0@ != name@,
            r matches Some(c) ==> exists|i: int| is_first_named(self.vms@, name@, i) && *c == self.vms@[i].1,
    {
        let wanted = String::from_str(name);
        let mut i: usize = 0;
        while i < self.vms.len()
            invariant
                i <= self.vms@.len(),
                wanted@ == name@,
                forall|j: int| 0 <= j < i ==> self.vms@[j].0@ != name@,
            decreases self.vms@.len() - i,
        {
            if self.vms[i].0 == wanted {
                assert(is_first_named(self.vms@, name@, i as int));
                return Some(&self.vms[i].1);
            }
            i = i + 1;
        }
        None
    }
}

/// The configuration of the virtual machine named `name`, or an error that
/// names it when the configuration has none.
pub fn get_vm_config<'a>(config: &'a Config, name: &str) -> (r: Result<&'a VmConfig, VmConfigNotFound>)
    ensures
        r is Err <==> forall|i: int| 0 <= i < config.vms@.len() ==> config.vms@[i].0@ != name@,
        r matches Ok(c) ==> exists|i: int| is_first_named(config.vms@, name@, i) && *c == config.vms@[i].1,
        r matches Err(e) ==> e.name@ == name@,
{
    match config.get_vm(name) {
        Some(c) => Ok(c),
        None => Err(VmConfigNotFound { name: String::from_str(name) }),
    }
}

} // verus!
