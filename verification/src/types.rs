use vstd::prelude::*;

verus! {

/// One folder whose icon is taken from an executable.
#[derive(Clone, PartialEq, Eq, Debug)]
pub struct FolderExeMapping {
    pub folder_path: String,
    pub exe_path: String,
    /// Whether the custom icon is currently applied to the folder.
    pub icon_state: bool,
}

/// The whole persisted configuration: an ordered list of mappings.
#[derive(Clone, PartialEq, Eq, Debug)]
pub struct AppConfig {
    pub mappings: Vec<FolderExeMapping>,
}

/// Mathematical view of a mapping.
pub struct MappingView {
    pub folder_path: Seq<char>,
    pub exe_path: Seq<char>,
    pub icon_state: bool,
}

impl View for FolderExeMapping {
    type V = MappingView;

    open spec fn view(&self) -> MappingView {
        MappingView {
            folder_path: self.folder_path@,
            exe_path: self.exe_path@,
            icon_state: self.icon_state,
        }
    }
}

impl View for AppConfig {
    type V = Seq<MappingView>;

    open spec fn view(&self) -> Seq<MappingView> {
        self.mappings@.map_values(|m: FolderExeMapping| m@)
    }
}

impl FolderExeMapping {
    /// A field-by-field copy.
    pub fn duplicate(&self) -> (res: FolderExeMapping)
        ensures
            res@ == self@,
    {
        FolderExeMapping {
            folder_path: self.folder_path.clone(),
            exe_path: self.exe_path.clone(),
            icon_state: self.icon_state,
        }
    }

    /// Whether two mappings hold the same folder, executable and state.
    pub fn same_as(&self, other: &FolderExeMapping) -> (res: bool)
        ensures
            res == (self@ == other@),
    {
        self.icon_state == other.icon_state && self.folder_path == other.folder_path
            && self.exe_path == other.exe_path
    }
}

impl Default for AppConfig {
    /// The empty configuration.
    fn default() -> (res: AppConfig)
        ensures
            res@ == Seq::<MappingView>::empty(),
    {
        AppConfig { mappings: Vec::new() }
    }
}

impl AppConfig {
    /// The empty configuration.
    pub fn new() -> (res: AppConfig)
        ensures
            res@ == Seq::<MappingView>::empty(),
    {
        AppConfig { mappings: Vec::new() }
    }

    /// A deep copy of the configuration.
    pub fn duplicate(&self) -> (res: AppConfig)
        ensures
            res@ == self@,
    {
        let mut mappings: Vec<FolderExeMapping> = Vec::new();
        let n = self.mappings.len();
        for i in 0..n
            invariant
                n == self.mappings.len(),
                mappings@.len() == i,
                forall|j: int| 0 <= j < i ==> #[trigger] mappings@[j]@ == self.mappings@[j]@,
        {
            mappings.push(self.mappings[i].duplicate());
        }
        let res = AppConfig { mappings };
        assert(res@ =~= self@);
        res
    }

    /// Whether two configurations hold the same mappings in the same order.
    pub fn same_as(&self, other: &AppConfig) -> (res: bool)
        ensures
            res == (self@ == other@),
    {
        let n = self.mappings.len();
        if n != other.mappings.len() {
            assert(self@.len() != other@.len());
            return false;
        }
        for i in 0..n
            invariant
                n == self.mappings.len(),
                n == other.mappings.len(),
                forall|j: int| 0 <= j < i ==> #[trigger] self.mappings@[j]@ == other.mappings@[j]@,
        {
            if !self.mappings[i].same_as(&other.mappings[i]) {
                assert(self@[i as int] != other@[i as int]);
                return false;
            }
        }
        assert(self@ =~= other@);
        true
    }
}

} // verus!
