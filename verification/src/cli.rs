//! The commands of the command-line tool, as values.

use vstd::prelude::*;

verus! {

/// The parsed command line.
pub struct Cli {
    pub command: Commands,
}

/// The commands of the tool.
pub enum Commands {
    Init,
    Check,
    Component { action: ComponentAction },
    Stressor { action: StressorAction },
    Matrix { action: MatrixAction },
    Triggers,
    Test { file: String },
}

/// What to do with the component list.
pub enum ComponentAction {
    Add { id: Option<String>, name: Option<String> },
    List,
}

/// What to do with the stressor list.
pub enum StressorAction {
    Add {
        id: Option<String>,
        name: Option<String>,
        detection: Option<String>,
        attractor: Option<String>,
        business_reaction: Option<String>,
        technical_change: Option<String>,
        affected_components: Vec<String>,
    },
    List,
}

/// What to do with the incidence matrix.
pub enum MatrixAction {
    Export,
    Print,
}

} // verus!
