[package]
name = "rusty_tree"
version = "0.1.0"
edition = "2021"
publish = false

[dependencies]
hdf5 = "0.8"
itertools = "=0.10.5"
mpi = "=0.6.0"
ndarray = "=0.15.6"
rayon = "=1.12.0"
rusty-kernel-tools = "=0.1.1"
vtkio = "=0.6.3"
