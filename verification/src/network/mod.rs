pub mod adblock;
