# orx_split_vec

A split vector: a dynamic-capacity vector made of fragments whose capacities
never change, so that growing the vector never moves an element. The growth
strategy (`Doubling`, `Linear`, `Recursive`, `FixedCapacity`) decides the
capacity of each new fragment and, for `Doubling` and `Linear`, locates an
element from its index in constant time.

The library in `src/` is verified with Verus. Each operation is specified
against the sequence of elements the vector holds (`v@`) and the capacities and
lengths of its fragments:

* `fragment.rs`, `layout.rs`: fragments and the arithmetic of their layout;
* `growth.rs`, `growth/`: the growth strategies and their contracts;
* `split_vec.rs`, `resize_unit.rs`, `resize_multiple.rs`, `shift.rs`,
  `access.rs`, `slice.rs`, `concurrency.rs`: the vector and its operations;
* `new_split_vec.rs`, `into_fragments.rs`: constructors and conversions;
* `iter.rs`, `pointers.rs`, `idx.rs`: cursors over elements and split indices;
* `laws.rs`: properties that relate several operations.

`app/` holds what rests on element addresses and std's `RangeBounds`.
