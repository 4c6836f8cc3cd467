use vstd::prelude::*;

verus! {

/// Architectural layer of a module.
#[derive(Clone, Copy, Debug, PartialEq, Eq, Hash, Structural)]
pub enum ModuleType {
    Core,
    Shared,
    Feature,
    Unknown,
}

/// Kind of a layering finding.
#[derive(Clone, Copy, Debug, PartialEq, Eq, Hash, Structural)]
pub enum ViolationType {
    CoreDependsOnFeature,
    SharedDependsOnFeature,
    FeatureToFeatureDirect,
    CircularDependency,
}

/// One discovered module, as handed over by the extractor.
#[derive(Clone, Debug)]
pub struct ModuleInfo {
    pub path: String,
    pub name: String,
    pub module_type: ModuleType,
    pub imports: Vec<String>,
    pub exports: Vec<String>,
    pub providers: Vec<String>,
    pub declarations: Vec<String>,
    pub dependencies: Vec<String>,
}

impl ModuleInfo {
    /// The declared dependencies, as character sequences.
    pub open spec fn dependency_names(self) -> Seq<Seq<char>> {
        self.dependencies@.map_values(|d: String| d@)
    }
}

/// The names of a sequence of modules, in order.
pub open spec fn names_of(ms: Seq<ModuleInfo>) -> Seq<Seq<char>> {
    ms.map_values(|m: ModuleInfo| m.name@)
}

/// The layers of a sequence of modules, in order.
pub open spec fn layers_of(ms: Seq<ModuleInfo>) -> Seq<ModuleType> {
    ms.map_values(|m: ModuleInfo| m.module_type)
}

/// A finding on one dependency edge.
#[derive(Debug)]
pub struct DependencyViolation {
    pub from_module: String,
    pub to_module: String,
    pub violation_type: ViolationType,
    pub description: String,
}

impl View for DependencyViolation {
    type V = (Seq<char>, Seq<char>, ViolationType, Seq<char>);

    open spec fn view(&self) -> Self::V {
        (self.from_module@, self.to_module@, self.violation_type, self.description@)
    }
}

/// Index of the module named `name`; meaningful when exactly one module has it.
pub open spec fn index_in(names: Seq<Seq<char>>, name: Seq<char>) -> int {
    choose|k: int| 0 <= k < names.len() && names[k] == name
}

/// Finds the module called `name`.
pub fn position_of(modules: &Vec<ModuleInfo>, name: &String) -> (r: Option<usize>)
    ensures
        match r {
            Some(k) => k < modules@.len() && modules@[k as int].name@ == name@ && forall|j: int|
                0 <= j < k ==> modules@[j].name@ != name@,
            None => !names_of(modules@).contains(name@),
        },
{
    let mut i: usize = 0;
    while i < modules.len()
        invariant
            i <= modules@.len(),
            forall|j: int| 0 <= j < i ==> modules@[j].name@ != name@,
        decreases modules@.len() - i,
    {
        if modules[i].name == *name {
            return Some(i);
        }
        i = i + 1;
    }
    proof {
        if names_of(modules@).contains(name@) {
            let k = choose|k: int| 0 <= k < names_of(modules@).len() && names_of(modules@)[k] == name@;
            assert(modules@[k].name@ == name@);
        }
    }
    None
}

} // verus!
