# rust_zip

A Huffman compressor whose core is verified with Verus.

- `src/file.rs`: the bit writer and bit reader, and the compressed file
  format (magic number `ZIP1`, leaf count, leaves, bit count, data) with
  its reader and writer.
- `src/huffman.rs`: frequency counting, merging of counts, sorting, the
  tree built by merging the two lightest nodes, the code table read off the
  tree, the lookup table for eight bits at a time, and encoding and
  decoding.
- `src/codec.rs`: compressing a byte sequence into a file and
  decompressing it, with the round trip proved.
- `src/util.rs`: command line parsing (`-c`, `-x`, `-o`, `-t`, `-h`) and the
  number of counting threads.
- `src/error.rs`: the errors of building a tree and reading a file.
- `app/main.rs`: the program: files, threads and prompts.

The main proved properties: reading a written file gives back what was
written, and writing a read file gives back its bytes; pushing bits in parts
leaves a writer as pushing them at once does; each merge joins two of the
lightest nodes left; decoding the code words of a sequence gives it back; compressing
and then decompressing gives back the input (for inputs with at least two
distinct bytes); merging the counts of chunks counts their concatenation.
