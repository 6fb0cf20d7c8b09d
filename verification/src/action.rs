//! The operation surfaces of the engine, as traits over an index type:
//! structural manipulation, scanning, and persistence.  `JManager`
//! implements all three; the stronger contracts live on its own methods.

use vstd::prelude::*;
use crate::errors::JError;
use crate::fs::Fs;
use crate::manager::JManager;
use crate::node::JNode;

verus! {

/// Serialization and deserialization of the whole index.
pub trait ManagerStorage where Self: Sized {
    /// The implementor's structural invariant.
    spec fn inv(&self) -> bool;

    fn dump(&self) -> String
        requires
            self.inv(),
    ;

    fn load(&mut self, text: &str, fs: &Fs) -> (r: Result<(), JError>)
        requires
            old(self).inv(),
            fs.wf(),
        ensures
            final (self).inv(),
    ;
}

/// Scanning the snapshot and adopting new nodes into the index.
pub trait Scanner<H> where Self: Sized {
    spec fn inv(&self) -> bool;

    fn scan_folder(&mut self, node: &H, fs: &Fs) -> (r: Result<(), JError>)
        requires
            old(self).inv(),
            fs.wf(),
        ensures
            final (self).inv(),
    ;

    fn scan_folder_raw(&mut self, node: &H, fs: &Fs) -> (r: Result<(), JError>)
        requires
            old(self).inv(),
            fs.wf(),
        ensures
            final (self).inv(),
    ;

    fn scan_folder_once(&mut self, node: &H, fs: &Fs) -> (r: Result<(), JError>)
        requires
            old(self).inv(),
            fs.wf(),
        ensures
            final (self).inv(),
    ;
}

/// Creation, lookup, removal and reconciliation of nodes by handle.
pub trait ManagerAction where Self: Sized {
    type H;

    spec fn inv(&self) -> bool;

    fn create_node(&mut self, path: &Vec<u8>, fs: &Fs) -> (r: Result<Self::H, JError>)
        requires
            old(self).inv(),
            fs.wf(),
            crate::paths::is_canon_path(path@),
        ensures
            final (self).inv(),
    ;

    fn locate_node(&mut self, path: &str, fs: &Fs) -> (r: Result<Self::H, JError>)
        requires
            old(self).inv(),
            fs.wf(),
        ensures
            final (self).inv(),
    ;

    fn delete_node(&mut self, node: &Self::H) -> (r: Result<(), JError>)
        requires
            old(self).inv(),
        ensures
            final (self).inv(),
    ;

    fn update_node(&mut self, node: &Self::H, fs: &Fs) -> (r: Result<(), JError>)
        requires
            old(self).inv(),
            fs.wf(),
        ensures
            final (self).inv(),
    ;

    fn get_parent(&self, node: &Self::H) -> Self::H
        requires
            self.inv(),
    ;

    fn get_children(&self, node: &Self::H) -> Vec<Self::H>
        requires
            self.inv(),
    ;
}

/// Read-only access to one node's cached attributes.
pub trait JNodeAction where Self: Sized {
    fn name(&self) -> String;

    fn last_modified(&self) -> u64;

    fn size(&self) -> u64;

    fn count_dir(&self) -> Option<u64>;

    fn count_file(&self) -> Option<u64>;
}

impl ManagerStorage for JManager {
    open spec fn inv(&self) -> bool {
        self.wf()
    }

    fn dump(&self) -> String {
        JManager::dump(self)
    }

    fn load(&mut self, text: &str, fs: &Fs) -> Result<(), JError> {
        JManager::load(self, text, fs)
    }
}

impl Scanner<u64> for JManager {
    open spec fn inv(&self) -> bool {
        self.wf()
    }

    fn scan_folder(&mut self, node: &u64, fs: &Fs) -> Result<(), JError> {
        JManager::scan_folder(self, node, fs)
    }

    fn scan_folder_raw(&mut self, node: &u64, fs: &Fs) -> Result<(), JError> {
        JManager::scan_folder_raw(self, node, fs)
    }

    fn scan_folder_once(&mut self, node: &u64, fs: &Fs) -> Result<(), JError> {
        JManager::scan_folder_once(self, node, fs)
    }
}

impl ManagerAction for JManager {
    type H = u64;

    open spec fn inv(&self) -> bool {
        self.wf()
    }

    fn create_node(&mut self, path: &Vec<u8>, fs: &Fs) -> Result<u64, JError> {
        JManager::create_node(self, path, fs)
    }

    fn locate_node(&mut self, path: &str, fs: &Fs) -> Result<u64, JError> {
        JManager::locate_node(self, path, fs)
    }

    fn delete_node(&mut self, node: &u64) -> Result<(), JError> {
        JManager::delete_node(self, node)
    }

    fn update_node(&mut self, node: &u64, fs: &Fs) -> Result<(), JError> {
        JManager::update_node(self, node, fs)
    }

    fn get_parent(&self, node: &u64) -> u64 {
        JManager::get_parent(self, node)
    }

    fn get_children(&self, node: &u64) -> Vec<u64> {
        JManager::get_children(self, node)
    }
}

impl JNodeAction for JNode {
    fn name(&self) -> String {
        JNode::name(self)
    }

    fn last_modified(&self) -> u64 {
        JNode::last_modified(self)
    }

    fn size(&self) -> u64 {
        JNode::size(self)
    }

    fn count_dir(&self) -> Option<u64> {
        JNode::count_dir(self)
    }

    fn count_file(&self) -> Option<u64> {
        JNode::count_file(self)
    }
}

} // verus!
