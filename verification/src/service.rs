pub mod omniscient;
