//! A named list of integers, and the sorting methods of an integer vector.

use vstd::prelude::*;
use crate::merge::merge_sort_recursive;
use crate::order::{
    is_sorted, is_sorting_of, lemma_sorting_is_sorted_form, lemma_sorting_of_sorted, sorted_form,
};
use crate::stable::keeps_equal_in_order;
use crate::quick::quick_sort_runner;
use crate::text::{integers_in, parse_content, render_content, rendered};

verus! {

/// The integers of one file, with the file's name and the path it came from.
pub struct File {
    pub name: String,
    pub path: String,
    pub content: Vec<i64>,
}

/// Sorting for a vector of 64-bit integers, by either engine.
pub trait SortVecI64 {
    /// The integers held, in order.
    spec fn elements(&self) -> Seq<i64>;

    /// A sorted copy; `self` stays as it is.
    fn sorted(&self) -> (out: Vec<i64>)
        ensures
            is_sorting_of(out@, self.elements()),
            out@ == sorted_form(self.elements()),
    ;

    /// Sorts in place with the quicksort engine.
    fn quick_sort(&mut self)
        ensures
            is_sorting_of(final(self).elements(), old(self).elements()),
            final(self).elements() == sorted_form(old(self).elements()),
            is_sorted(old(self).elements()) ==> final(self).elements() == old(self).elements(),
            old(self).elements().len() <= 1 ==> final(self).elements() == old(self).elements(),
    ;

    /// Sorts in place with the merge sort engine, which never lets one of
    /// two equal values pass the other.
    fn merge_sort(&mut self)
        ensures
            is_sorting_of(final(self).elements(), old(self).elements()),
            final(self).elements() == sorted_form(old(self).elements()),
            keeps_equal_in_order(old(self).elements(), final(self).elements()),
            is_sorted(old(self).elements()) ==> final(self).elements() == old(self).elements(),
            old(self).elements().len() <= 1 ==> final(self).elements() == old(self).elements(),
    ;
}

impl SortVecI64 for Vec<i64> {
    open spec fn elements(&self) -> Seq<i64> {
        self@
    }

    fn sorted(&self) -> (out: Vec<i64>) {
        let mut sorted_vec = self.clone();
        sorted_vec.quick_sort();
        sorted_vec
    }

    fn merge_sort(&mut self) {
        let mut buffer = self.clone();
        merge_sort_recursive(self.as_mut_slice(), buffer.as_mut_slice());
        proof {
            lemma_sorting_is_sorted_form(old(self)@, self@);
            if is_sorted(old(self)@) {
                lemma_sorting_of_sorted(old(self)@, self@);
            }
        }
    }

    fn quick_sort(&mut self) {
        let len = self.len();
        if !self.is_empty() {
            quick_sort_runner(self.as_mut_slice(), 0, len - 1);
            assert(self@.subrange(0, len as int) =~= self@);
            assert(old(self)@.subrange(0, len as int) =~= old(self)@);
        }
        proof {
            lemma_sorting_is_sorted_form(old(self)@, self@);
            if is_sorted(old(self)@) {
                lemma_sorting_of_sorted(old(self)@, self@);
            }
        }
    }
}

impl File {
    /// The file of that name and path whose content is the integers of
    /// `text`, one to a line; lines that hold no integer are passed over.
    pub fn from_text(name: String, path: String, text: &[u8]) -> (out: File)
        ensures
            out.name == name,
            out.path == path,
            out.content@ == integers_in(text@),
    {
        File { name, path, content: parse_content(text) }
    }

    /// The content as text: each integer in decimal, followed by a line feed.
    pub fn to_text(&self) -> (text: Vec<u8>)
        ensures
            text@ == rendered(self.content@),
    {
        render_content(self.content.as_slice())
    }

    /// Where the file is to be written: at `new_name` where one is given,
    /// else at the path it came from.
    pub fn target_path(&self, new_name: Option<String>) -> (target: String)
        ensures
            target == (match new_name {
                Some(name) => name,
                None => self.path,
            }),
    {
        match new_name {
            Some(name) => name,
            None => self.path.clone(),
        }
    }

    /// The same file with its content sorted; `self` stays as it is.
    pub fn sort(&self) -> (out: File)
        ensures
            out.name == self.name,
            out.path == self.path,
            is_sorting_of(out.content@, self.content@),
            out.content@ == sorted_form(self.content@),
    {
        let sorted_content = self.content.sorted();

        File { name: self.name.clone(), path: self.path.clone(), content: sorted_content }
    }
}

} // verus!
