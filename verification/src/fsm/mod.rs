pub mod tab_manager;
