pub mod model;
pub mod blackforbiddenmove;
pub mod lines;
pub mod solver;
pub mod keytable;
