# dram-mapper

Maps the performance of physical memory. The program allocates huge pages,
finds out where they lie in physical memory, measures bandwidth and latency of
each, ranks them, joins adjacent ones into blocks, and recommends a place for
the parts of a language model.

`src/` is the verified core: parsing of the command line and of the kernel's
files, the allocation plan, the protocol that reserves huge pages, the passes
over a region, the pointer chase, ranking, contiguous blocks and the component
layout. Measured memory is accessed through `Region`, which records every read
and write for proofs, so the contracts of the passes and of the chase say how
often they go to memory and where. `app/` is the program around it: system
calls, time stamps, floating-point averages and output.

    sudo ./dram-mapper --fast               # about 2 minutes, full map
    sudo ./dram-mapper --balanced           # about 10 minutes, more accurate
    sudo ./dram-mapper --precise            # about 40 minutes, most accurate
    sudo ./dram-mapper --fast --limit 8192  # 8 GB only
    sudo ./dram-mapper --fast --verbose     # all regions

Root is needed for `/proc/self/pagemap` and for huge pages. If huge pages get
stuck after a crash:

    echo 0 | sudo tee /sys/kernel/mm/hugepages/hugepages-2048kB/nr_hugepages
