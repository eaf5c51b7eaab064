use vstd::prelude::*;

verus! {

/// A computed column of the optional transform: a SQL expression and
/// the name it is exposed under. The expression is operator-owned SQL
/// and is spliced, not parsed.
#[derive(Clone, Debug)]
pub struct ComputedColumn {
    pub name: String,
    pub expr: String,
}

/// The optional post-load rewrite applied before Parquet emission:
/// projection, renames, computed columns, filters and DISTINCT.
/// Renames are looked up by column name; the list form keeps the
/// lookup order deterministic.
#[derive(Clone, Debug)]
pub struct TransformConfig {
    pub select: Option<Vec<String>>,
    pub rename: Vec<(String, String)>,
    pub filters: Option<Vec<String>>,
    pub computed: Option<Vec<ComputedColumn>>,
    pub distinct: Option<bool>,
}

/// A per-dataset configuration document: nothing but the optional
/// transform.
#[derive(Clone, Debug)]
pub struct YamlConfig {
    pub transform: Option<TransformConfig>,
}

/// A self-contained dataset description as the batch front end loads
/// it from one configuration file: where the inputs are, where the
/// output goes, and the same transform fields in their flat form.
#[derive(Clone, Debug)]
pub struct Dataset {
    pub name: String,
    pub input_folder: String,
    pub output_file: String,
    pub dataset_type: String,
    pub select: Option<Vec<String>>,
    pub rename: Vec<(String, String)>,
    pub computed: Option<Vec<String>>,
    pub filters: Option<Vec<String>>,
    pub distinct: Option<bool>,
}

} // verus!
